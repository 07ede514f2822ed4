//! Which names a list of hosts holds, told by the characters of the rows.

use vstd::prelude::*;

use crate::laws::forms::{
    dressed, every_text_has_a_core, is_core, is_lowered, is_space, lemma_core, lemma_lowered,
    lemma_spaces,
};
use crate::names::{
    apex, entry_hostnames, foreign, hostname, is_host_list, is_host_of, is_line, is_subdomain_list,
    lists, name_values, normalized, without_apex, CrtShEntry,
};
use crate::order::{ascending, bytes_before, name_before, texts};

verus! {

/// Whether `n` may be listed: it has characters, none of them white space, a
/// control code, or one of `*`, `/`, `:` and `@`, and no two dots in a row.
pub open spec fn may_be_listed(n: Seq<char>) -> bool {
    &&& n.len() > 0
    &&& forall|i: int|
        0 <= i < n.len() ==> {
            let c = #[trigger] n[i];
            &&& !is_space(c)
            &&& ' ' <= c && !('\u{7f}' <= c < '\u{a0}')
            &&& c != '*' && c != '/' && c != ':' && c != '@'
        }
    &&& forall|i: int, j: int|
        0 <= i && j == i + 1 && j < n.len() && #[trigger] n[i] == '.' ==> #[trigger] n[j] != '.'
}

/// Whether `value` is the line `line` with lines before and behind it, or
/// nothing there.
pub open spec fn has_line(
    value: Seq<char>,
    before: Seq<char>,
    line: Seq<char>,
    behind: Seq<char>,
) -> bool {
    &&& value == before + line + behind
    &&& !line.contains('\n')
    &&& before.len() > 0 ==> before.last() == '\n'
    &&& behind.len() > 0 ==> behind[0] == '\n'
}

/// Whether a line of `value` has `raw` as its core.
pub open spec fn names(value: Seq<char>, raw: Seq<char>) -> bool {
    exists|before: Seq<char>, line: Seq<char>, behind: Seq<char>| #[trigger]
        has_line(value, before, line, behind) && is_core(line, raw)
}

/// Whether one of the name sets names `n`, in any letter case.
pub open spec fn named_in(values: Seq<Seq<char>>, n: Seq<char>) -> bool {
    exists|i: int, raw: Seq<char>|
        0 <= i < values.len() && #[trigger] names(values[i], raw) && is_lowered(raw, n)
}

/// Whether `a` comes before `b`: their UTF-8 bytes are the same up to where
/// either `a` ends and `b` goes on, or the byte of `a` is the smaller one.
pub open spec fn comes_before(a: Seq<char>, b: Seq<char>) -> bool {
    let x = vstd::utf8::encode_utf8(a);
    let y = vstd::utf8::encode_utf8(b);
    exists|k: int|
        {
            &&& 0 <= k <= x.len()
            &&& k < y.len()
            &&& #[trigger] x.take(k) == y.take(k)
            &&& k == x.len() || x[k] < y[k]
        }
}

/// Whether every name of the list comes before all that follow it.
pub open spec fn in_order(list: Seq<Seq<char>>) -> bool {
    forall|i: int, j: int|
        0 <= i < j < list.len() ==> comes_before(#[trigger] list[i], #[trigger] list[j])
}

proof fn lemma_foreign(c: char)
    ensures
        !foreign(c) <==> {
            &&& !is_space(c)
            &&& ' ' <= c && !('\u{7f}' <= c < '\u{a0}')
            &&& c != '*' && c != '/' && c != ':' && c != '@'
        },
{
    lemma_spaces(c);
}

pub(crate) proof fn lemma_may_be_listed(n: Seq<char>)
    ensures
        hostname(n) <==> may_be_listed(n),
{
    if hostname(n) {
        assert forall|i: int| 0 <= i < n.len() implies {
            let c = #[trigger] n[i];
            &&& !is_space(c)
            &&& ' ' <= c && !('\u{7f}' <= c < '\u{a0}')
            &&& c != '*' && c != '/' && c != ':' && c != '@'
        } by {
            lemma_foreign(n[i]);
        }
    }
    if may_be_listed(n) {
        assert forall|i: int| 0 <= i < n.len() implies !foreign(#[trigger] n[i]) by {
            lemma_foreign(n[i]);
        }
        assert forall|i: int| 0 < i < n.len() implies !(n[i - 1] == '.' && #[trigger] n[i]
            == '.') by {
            assert(n[i - 1] == '.' ==> n[i] != '.');
        }
    }
}

proof fn lemma_names(value: Seq<char>, n: Seq<char>)
    ensures
        lists(value, n) <==> exists|raw: Seq<char>| #[trigger]
            names(value, raw) && is_lowered(raw, n),
{
    if lists(value, n) {
        let (a, b) = choose|a: int, b: int|
            #[trigger] is_line(value, a, b) && n == normalized(value.subrange(a, b));
        let line = value.subrange(a, b);
        let before = value.take(a);
        let behind = value.skip(b);
        assert(value == before + line + behind);
        assert(!line.contains('\n')) by {
            assert forall|k: int| 0 <= k < line.len() implies #[trigger] line[k] != '\n' by {
                assert(value[a + k] != '\n');
            }
        }
        assert(has_line(value, before, line, behind));
        every_text_has_a_core(line);
        let raw = crate::domain::clean(line);
        assert(names(value, raw));
        lemma_lowered(raw, n);
    }
    if exists|raw: Seq<char>| #[trigger] names(value, raw) && is_lowered(raw, n) {
        let raw = choose|raw: Seq<char>| #[trigger] names(value, raw) && is_lowered(raw, n);
        let (before, line, behind) = choose|
            before: Seq<char>,
            line: Seq<char>,
            behind: Seq<char>,
        | #[trigger]
            has_line(value, before, line, behind) && is_core(line, raw);
        let a = before.len() as int;
        let b = a + line.len();
        assert(value.subrange(a, b) == line);
        assert forall|i: int| a <= i < b implies #[trigger] value[i] != '\n' by {
            assert(line.contains(line[i - a]));
        }
        if a > 0 {
            assert(value[a - 1] == before.last());
        }
        if b < value.len() {
            assert(value[b] == behind[0]);
        }
        assert(is_line(value, a, b));
        lemma_core(line, raw);
        lemma_lowered(raw, n);
    }
}

pub(crate) proof fn lemma_named_in(values: Seq<Seq<char>>, n: Seq<char>)
    ensures
        is_host_of(values, n) <==> may_be_listed(n) && named_in(values, n),
{
    lemma_may_be_listed(n);
    if is_host_of(values, n) {
        let i = choose|i: int| 0 <= i < values.len() && lists(#[trigger] values[i], n);
        lemma_names(values[i], n);
        let raw = choose|raw: Seq<char>| #[trigger] names(values[i], raw) && is_lowered(raw, n);
        assert(names(values[i], raw) && is_lowered(raw, n));
    }
    if named_in(values, n) {
        let (i, raw) = choose|i: int, raw: Seq<char>|
            0 <= i < values.len() && #[trigger] names(values[i], raw) && is_lowered(raw, n);
        lemma_names(values[i], n);
        assert(lists(values[i], n));
    }
}

proof fn lemma_bytes_before(x: Seq<u8>, y: Seq<u8>) -> (k: int)
    requires
        bytes_before(x, y),
    ensures
        0 <= k <= x.len(),
        k < y.len(),
        x.take(k) == y.take(k),
        k == x.len() || x[k] < y[k],
    decreases x.len(),
{
    if x.len() == 0 || x[0] != y[0] {
        assert(x.take(0) == y.take(0));
        0
    } else {
        let k = lemma_bytes_before(x.skip(1), y.skip(1));
        assert forall|i: int| 0 <= i < k + 1 implies x.take(k + 1)[i] == #[trigger] y.take(
            k + 1,
        )[i] by {
            if i > 0 {
                assert(x.skip(1).take(k)[i - 1] == y.skip(1).take(k)[i - 1]);
            }
        }
        assert(x.take(k + 1) == y.take(k + 1));
        k + 1
    }
}

pub(crate) proof fn lemma_in_order(list: Seq<Seq<char>>)
    requires
        ascending(list),
    ensures
        in_order(list),
{
    assert forall|i: int, j: int| 0 <= i < j < list.len() implies comes_before(
        #[trigger] list[i],
        #[trigger] list[j],
    ) by {
        assert(name_before(list[i], list[j]));
        let x = vstd::utf8::encode_utf8(list[i]);
        let y = vstd::utf8::encode_utf8(list[j]);
        let k = lemma_bytes_before(x, y);
        assert(x.take(k) == y.take(k));
    }
}

proof fn lemma_before(x: Seq<u8>, y: Seq<u8>, k: int)
    requires
        0 <= k <= x.len(),
        k < y.len(),
        x.take(k) == y.take(k),
        k == x.len() || x[k] < y[k],
    ensures
        bytes_before(x, y),
    decreases k,
{
    if k > 0 {
        assert forall|i: int| 0 <= i < k implies #[trigger] x[i] == y[i] by {
            assert(x.take(k)[i] == x[i] && y.take(k)[i] == y[i]);
        }
        let (s, t) = (x.skip(1), y.skip(1));
        assert forall|i: int| 0 <= i < k - 1 implies s.take(k - 1)[i] == #[trigger] t.take(
            k - 1,
        )[i] by {
            assert(x[i + 1] == y[i + 1]);
        }
        assert(s.take(k - 1) == t.take(k - 1));
        lemma_before(s, t, k - 1);
    }
}

pub(crate) proof fn lemma_ascending(list: Seq<Seq<char>>)
    requires
        in_order(list),
    ensures
        ascending(list),
{
    assert forall|i: int, j: int| 0 <= i < j < list.len() implies name_before(
        #[trigger] list[i],
        #[trigger] list[j],
    ) by {
        assert(comes_before(list[i], list[j]));
        let x = vstd::utf8::encode_utf8(list[i]);
        let y = vstd::utf8::encode_utf8(list[j]);
        let k = choose|k: int|
            {
                &&& 0 <= k <= x.len()
                &&& k < y.len()
                &&& #[trigger] x.take(k) == y.take(k)
                &&& k == x.len() || x[k] < y[k]
            };
        lemma_before(x, y, k);
    }
}

/// Whether `list` holds the names that the name sets name and that may be
/// listed: all of them, nothing else, each once, in order.
pub open spec fn holds_the_names(list: Seq<Seq<char>>, values: Seq<Seq<char>>) -> bool {
    &&& in_order(list)
    &&& forall|n: Seq<char>|
        #[trigger] list.contains(n) <==> may_be_listed(n) && named_in(values, n)
}

/// Whether `list` holds those names but for `own` in lower case.
pub open spec fn holds_the_other_names(
    list: Seq<Seq<char>>,
    values: Seq<Seq<char>>,
    own: Seq<char>,
) -> bool {
    &&& in_order(list)
    &&& forall|n: Seq<char>|
        #[trigger] list.contains(n) <==> may_be_listed(n) && named_in(values, n) && !is_lowered(
            own,
            n,
        )
}

pub(crate) proof fn lemma_host_list(list: Seq<Seq<char>>, values: Seq<Seq<char>>)
    requires
        is_host_list(list, values),
    ensures
        holds_the_names(list, values),
{
    lemma_in_order(list);
    assert forall|n: Seq<char>| #[trigger] list.contains(n) <==> may_be_listed(n) && named_in(
        values,
        n,
    ) by {
        lemma_named_in(values, n);
    }
}

pub(crate) proof fn lemma_subdomain_list(
    list: Seq<Seq<char>>,
    values: Seq<Seq<char>>,
    domain: Seq<char>,
    own: Seq<char>,
)
    requires
        is_subdomain_list(list, values, domain),
        is_core(domain, own),
    ensures
        holds_the_other_names(list, values, own),
{
    lemma_in_order(list);
    lemma_core(domain, own);
    assert forall|n: Seq<char>| #[trigger] list.contains(n) <==> may_be_listed(n) && named_in(
        values,
        n,
    ) && !is_lowered(own, n) by {
        lemma_named_in(values, n);
        lemma_lowered(own, n);
    }
}

/// The hosts of rows are the names on the lines of the rows, bare and in lower
/// case: all that may be listed, and nothing else.
pub proof fn hosts_are_the_names_of_the_rows(entries: Vec<CrtShEntry>, r: Vec<String>)
    requires
        call_ensures(entry_hostnames, (&entries,), r),
    ensures
        holds_the_names(
            texts(r@),
            Seq::new(entries@.len(), |i: int| entries@[i].name_value@),
        ),
{
    assert(name_values(entries@) == Seq::new(
        entries@.len(),
        |i: int| entries@[i].name_value@,
    ));
    lemma_host_list(texts(r@), name_values(entries@));
}

/// No letter of a listed name is a capital, neither end of it is a dot, no two
/// dots stand in a row, and none of the signs that mark a wildcard, a path, a
/// port or a user stands in it, nor a space or a line break.
pub proof fn listed_names_are_bare(
    list: Seq<Seq<char>>,
    values: Seq<Seq<char>>,
    n: Seq<char>,
)
    requires
        is_host_list(list, values),
        list.contains(n),
    ensures
        n.len() > 0,
        forall|i: int| 0 <= i < n.len() ==> !('A' <= #[trigger] n[i] <= 'Z'),
        forall|i: int| 0 <= i < n.len() ==> '!' <= #[trigger] n[i] <= '~' || n[i] > '\u{a0}',
        !n.contains('*') && !n.contains('/') && !n.contains(':') && !n.contains('@'),
        forall|i: int| 0 <= i < n.len() - 1 ==> #[trigger] n.subrange(i, i + 2) != seq!['.', '.'],
        n[0] != '.',
        n.last() != '.',
{
    crate::laws::listed_name_is_normal(list, values, n);
    lemma_host_list(list, values);
    let (i, raw) = choose|i: int, raw: Seq<char>|
        0 <= i < values.len() && #[trigger] names(values[i], raw) && is_lowered(raw, n);
    assert(may_be_listed(n)) by {
        assert(list.contains(n));
    }
    assert forall|k: int| 0 <= k < n.len() implies '!' <= #[trigger] n[k] <= '~' || n[k]
        > '\u{a0}' by {
        lemma_visible(n[k]);
    }
    assert forall|k: int| 0 <= k < n.len() - 1 implies #[trigger] n.subrange(k, k + 2)
        != seq!['.', '.'] by {
        let two = n.subrange(k, k + 2);
        assert(two[0] == n[k] && two[1] == n[k + 1]);
        if two == seq!['.', '.'] {
            assert(two[0] == '.' && two[1] == '.');
            assert(n[k] == '.' ==> n[k + 1] != '.');
        }
    }
    assert forall|k: int| 0 <= k < n.len() implies !('A' <= #[trigger] n[k] <= 'Z') by {
        assert(n[k] as u32 == raw[k] as u32 + (if 65 <= raw[k] as u32 <= 90 {
            32int
        } else {
            0int
        }));
    }
}

proof fn lemma_visible(c: char)
    requires
        !is_space(c),
        ' ' <= c,
        !('\u{7f}' <= c < '\u{a0}'),
    ensures
        '!' <= c <= '~' || c > '\u{a0}',
{
}

/// Whether `n` is a plain host name: small letters, digits, hyphens, underscores
/// and dots, with a dot at neither end and no two of them in a row.
pub open spec fn is_plain_host(n: Seq<char>) -> bool {
    &&& n.len() > 0
    &&& forall|i: int|
        0 <= i < n.len() ==> {
            ||| 'a' <= #[trigger] n[i] <= 'z'
            ||| '0' <= n[i] <= '9'
            ||| n[i] == '-' || n[i] == '_' || n[i] == '.'
        }
    &&& n[0] != '.' && n.last() != '.'
    &&& forall|i: int| 0 <= i < n.len() - 1 ==> #[trigger] n.subrange(i, i + 2) != seq!['.', '.']
}

proof fn lemma_plain_char(c: char)
    requires
        'a' <= c <= 'z' || '0' <= c <= '9' || c == '-' || c == '_' || c == '.',
    ensures
        !is_space(c),
        ' ' <= c && !('\u{7f}' <= c < '\u{a0}'),
        c != '*' && c != '/' && c != ':' && c != '@' && c != '\n',
        !(65 <= c as u32 <= 90),
{
}

pub(crate) proof fn lemma_plain_host(n: Seq<char>)
    requires
        is_plain_host(n),
    ensures
        may_be_listed(n),
        !n.contains('\n'),
        is_core(n, n),
        is_lowered(n, n),
        is_core(seq!['*', '.'] + n, n),
{
    assert forall|i: int| 0 <= i < n.len() implies {
        let c = #[trigger] n[i];
        &&& !is_space(c)
        &&& ' ' <= c && !('\u{7f}' <= c < '\u{a0}')
        &&& c != '*' && c != '/' && c != ':' && c != '@' && c != '\n'
        &&& !(65 <= c as u32 <= 90)
    } by {
        assert('a' <= n[i] <= 'z' || '0' <= n[i] <= '9' || n[i] == '-' || n[i] == '_' || n[i]
            == '.');
        lemma_plain_char(n[i]);
    }
    assert forall|i: int, j: int|
        0 <= i && j == i + 1 && j < n.len() && #[trigger] n[i] == '.' implies #[trigger] n[j]
        != '.' by {
        if n[j] == '.' {
            assert(n.subrange(i, i + 2) == seq!['.', '.']);
        }
    }
    let none = Seq::<char>::empty();
    let no_labels = Seq::<Seq<char>>::empty();
    assert(no_labels.flatten() == none);
    assert(none + (no_labels.flatten() + (n + none)) + none == n);
    assert(no_labels.flatten() + (n + none) == n);
    assert(n + none == n);
    assert(n[0] != '*');
    assert(dressed(n, none, no_labels, n, none, none));
    let star = seq!['*', '.'];
    let labels = seq![star];
    assert(labels.drop_first() == no_labels);
    assert(labels.flatten() == star + no_labels.flatten());
    assert(labels.flatten() == star);
    let inner = star + n;
    assert(labels.flatten() + (n + none) == inner);
    assert(none + inner + none == inner);
    assert(inner[0] == '*' && inner.last() == n.last());
    assert(!is_space(n[n.len() - 1]));
    assert(dressed(inner, none, labels, n, none, none));
}

/// A plain host name on a row of its own is listed as it is, and so is one with
/// a wildcard label in front of it.
pub proof fn plain_hosts_are_listed(
    entries: Vec<CrtShEntry>,
    r: Vec<String>,
    k: int,
    n: Seq<char>,
)
    requires
        call_ensures(entry_hostnames, (&entries,), r),
        is_plain_host(n),
        0 <= k < entries@.len(),
        entries@[k].name_value@ == n || entries@[k].name_value@ == seq!['*', '.'] + n,
    ensures
        texts(r@).contains(n),
{
    hosts_are_the_names_of_the_rows(entries, r);
    lemma_plain_host(n);
    let values = Seq::new(entries@.len(), |i: int| entries@[i].name_value@);
    let value = values[k];
    let none = Seq::<char>::empty();
    assert(none + value + none == value);
    assert forall|i: int| 0 <= i < value.len() implies #[trigger] value[i] != '\n' by {
        if value.len() == n.len() {
            assert(n.contains(n[i]));
        } else if i >= 2 {
            assert(value[i] == n[i - 2]);
            assert(n.contains(n[i - 2]));
        }
    }
    assert(has_line(value, none, value, none));
    assert(names(values[k], n));
    assert(named_in(values, n));
}

/// A plain host name that is asked about is not among its own subdomains, and
/// every other host of the rows is.
pub proof fn plain_domain_is_left_out(list: Vec<String>, domain: &str, r: Vec<String>)
    requires
        call_ensures(without_apex, (&list, domain), r),
        is_plain_host(domain@),
    ensures
        forall|n: Seq<char>| #[trigger]
            texts(r@).contains(n) <==> texts(list@).contains(n) && n != domain@,
{
    lemma_plain_host(domain@);
    only_the_domain_itself_is_left_out(list, domain, r, domain@);
    assert forall|n: Seq<char>| #[trigger]
        texts(r@).contains(n) <==> texts(list@).contains(n) && n != domain@ by {
        lemma_lowered(domain@, n);
        lemma_lowered(domain@, domain@);
    }
}

/// Whether the two texts differ in nothing but the case of letters from A to Z.
pub open spec fn same_but_for_case(a: Seq<char>, b: Seq<char>) -> bool {
    &&& a.len() == b.len()
    &&& forall|i: int|
        0 <= i < a.len() ==> {
            ||| #[trigger] a[i] == b[i]
            ||| 65 <= a[i] as u32 <= 90 && b[i] as u32 == a[i] as u32 + 32
            ||| 65 <= b[i] as u32 <= 90 && a[i] as u32 == b[i] as u32 + 32
        }
}

proof fn lemma_same_lower(a: Seq<char>, b: Seq<char>)
    requires
        same_but_for_case(a, b),
    ensures
        crate::text::lower(a) == crate::text::lower(b),
{
    let x = crate::text::lower(a);
    let y = crate::text::lower(b);
    assert forall|i: int| 0 <= i < x.len() implies #[trigger] x[i] == y[i] by {
        if a[i] != b[i] {
            vstd::utf8::char_u32_cast(x[i], x[i] as u32);
            vstd::utf8::char_u32_cast(y[i], y[i] as u32);
        }
    }
}

/// The case of the letters in a row does not matter: rows that differ in
/// nothing else give the same hosts.
pub proof fn hosts_ignore_letter_case(
    entries: Vec<CrtShEntry>,
    others: Vec<CrtShEntry>,
    r: Vec<String>,
    s: Vec<String>,
)
    requires
        call_ensures(entry_hostnames, (&entries,), r),
        call_ensures(entry_hostnames, (&others,), s),
        entries@.len() == others@.len(),
        forall|i: int|
            0 <= i < entries@.len() ==> same_but_for_case(
                #[trigger] entries@[i].name_value@,
                others@[i].name_value@,
            ),
    ensures
        texts(r@) == texts(s@),
{
    let v = name_values(entries@);
    let w = name_values(others@);
    assert forall|n: Seq<char>| texts(r@).contains(n) <==> texts(s@).contains(n) by {
        assert forall|i: int| 0 <= i < v.len() implies lists(v[i], n) == lists(w[i], n) by {
            assert(same_but_for_case(entries@[i].name_value@, others@[i].name_value@));
            lemma_lists_ignores_case(v[i], w[i], n);
            lemma_same_sym(v[i], w[i]);
            lemma_lists_ignores_case(w[i], v[i], n);
        }
        if is_host_of(v, n) {
            let i = choose|i: int| 0 <= i < v.len() && lists(#[trigger] v[i], n);
            assert(lists(w[i], n));
        }
        if is_host_of(w, n) {
            let i = choose|i: int| 0 <= i < w.len() && lists(#[trigger] w[i], n);
            assert(lists(v[i], n));
        }
    }
    crate::order::ascending_list_is_unique(texts(r@), texts(s@));
}

proof fn lemma_same_sym(a: Seq<char>, b: Seq<char>)
    requires
        same_but_for_case(a, b),
    ensures
        same_but_for_case(b, a),
{
    assert forall|i: int| 0 <= i < b.len() implies {
        ||| #[trigger] b[i] == a[i]
        ||| 65 <= b[i] as u32 <= 90 && a[i] as u32 == b[i] as u32 + 32
        ||| 65 <= a[i] as u32 <= 90 && b[i] as u32 == a[i] as u32 + 32
    } by {
        assert(a[i] == a[i]);
    }
}

proof fn lemma_lists_ignores_case(v: Seq<char>, w: Seq<char>, n: Seq<char>)
    requires
        same_but_for_case(v, w),
    ensures
        lists(v, n) ==> lists(w, n),
{
    if lists(v, n) {
        let (a, b) = choose|a: int, b: int|
            #[trigger] is_line(v, a, b) && n == normalized(v.subrange(a, b));
        let x = v.subrange(a, b);
        let y = w.subrange(a, b);
        assert forall|i: int| 0 <= i < v.len() implies (v[i] == '\n') == (#[trigger] w[i]
            == '\n') by {
            assert(v[i] == v[i]);
        }
        assert forall|i: int| a <= i < b implies #[trigger] w[i] != '\n' by {
            assert(v[i] != '\n');
        }
        assert(is_line(w, a, b));
        assert forall|i: int| 0 <= i < x.len() implies {
            ||| #[trigger] x[i] == y[i]
            ||| 65 <= x[i] as u32 <= 90 && y[i] as u32 == x[i] as u32 + 32
            ||| 65 <= y[i] as u32 <= 90 && x[i] as u32 == y[i] as u32 + 32
        } by {
            assert(v[a + i] == v[a + i]);
        }
        lemma_same_lower(x, y);
        crate::laws::clean_and_lower_commute(x);
        crate::laws::clean_and_lower_commute(y);
    }
}

/// What is left out of a list is the core of the domain in lower case, and
/// nothing else; what remains keeps its order.
pub proof fn only_the_domain_itself_is_left_out(
    list: Vec<String>,
    domain: &str,
    r: Vec<String>,
    own: Seq<char>,
)
    requires
        call_ensures(without_apex, (&list, domain), r),
        is_core(domain@, own),
    ensures
        texts(r@) == texts(list@).filter(|n: Seq<char>| !is_lowered(own, n)),
        forall|n: Seq<char>| #[trigger]
            texts(r@).contains(n) <==> texts(list@).contains(n) && !is_lowered(own, n),
{
    lemma_core(domain@, own);
    let keep = |n: Seq<char>| n != apex(domain@);
    let same = |n: Seq<char>| !is_lowered(own, n);
    assert forall|n: Seq<char>| #[trigger] keep(n) == same(n) by {
        lemma_lowered(own, n);
    }
    assert(keep =~= same);
    assert forall|n: Seq<char>| #[trigger]
        texts(r@).contains(n) <==> texts(list@).contains(n) && !is_lowered(own, n) by {
        lemma_filter_contains(texts(list@), same, n);
    }
}

pub(crate) proof fn lemma_filter_contains<A>(s: Seq<A>, keep: spec_fn(A) -> bool, n: A)
    ensures
        s.filter(keep).contains(n) <==> s.contains(n) && keep(n),
    decreases s.len(),
{
    reveal(Seq::filter);
    if s.len() > 0 {
        let init = s.drop_last();
        lemma_filter_contains(init, keep, n);
        let kept = init.filter(keep);
        let out = s.filter(keep);
        if kept.contains(n) {
            let i = choose|i: int| 0 <= i < kept.len() && kept[i] == n;
            assert(out[i] == n);
        }
        if init.contains(n) {
            let i = choose|i: int| 0 <= i < init.len() && init[i] == n;
            assert(s[i] == n);
        }
        if keep(s.last()) {
            assert(out.last() == s.last());
        }
        if s.contains(n) {
            let i = choose|i: int| 0 <= i < s.len() && s[i] == n;
            if i < init.len() {
                assert(init[i] == n);
            }
        }
        if out.contains(n) {
            let i = choose|i: int| 0 <= i < out.len() && out[i] == n;
            if i < kept.len() {
                assert(kept[i] == n);
            }
        }
    }
}

} // verus!
