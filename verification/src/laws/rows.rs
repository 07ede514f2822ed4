//! Which rows a response has and what they hold, told by their text.

use vstd::prelude::*;

use crate::error::CtError;
use crate::json::{
    field_views, fields_from, first_field, is_name_value, json_array_items, json_space,
    json_string_prefix, json_value_rest, leading_string, name_value, name_value_of, past,
    row_fields, row_name_value, Field, RowFault,
};
use crate::laws::forms::{all_space, is_core, is_space, lemma_spaces};
use crate::laws::hosts::{
    holds_the_names, holds_the_other_names, lemma_filter_contains, lemma_host_list,
    lemma_subdomain_list,
};
use crate::names::{parse_crtsh_hostnames, parse_crtsh_subdomains, response_name_values};
use crate::order::texts;
use crate::text::{trim, white_space};

verus! {

/// What fields hold as their `name_value` is the string of the one field with
/// that key. Two such fields are a fault, and so is none, or one that is no
/// string; fields with other keys are nothing to it.
pub proof fn name_value_is_that_of_the_one_field(
    fields: Vec<Field>,
    r: Result<String, RowFault>,
)
    requires
        call_ensures(name_value, (&fields,), r),
    ensures
        (forall|i: int| 0 <= i < fields@.len() ==> #[trigger] fields@[i].key@ != "name_value"@)
            ==> r == Err::<String, RowFault>(RowFault::Missing),
        forall|i: int, j: int|
            0 <= i < j < fields@.len() && #[trigger] fields@[i].key@ == "name_value"@
                && #[trigger] fields@[j].key@ == "name_value"@ ==> r == Err::<String, RowFault>(
                RowFault::Repeated,
            ),
        forall|k: int|
            0 <= k < fields@.len() && #[trigger] fields@[k].key@ == "name_value"@ && (forall|i: int|
                0 <= i < fields@.len() && i != k ==> #[trigger] fields@[i].key@ != "name_value"@)
                ==> match fields@[k].value {
                Some(s) => r matches Ok(t) && t@ == s@,
                None => r == Err::<String, RowFault>(RowFault::NotAString),
            },
{
    let views = field_views(fields@);
    if forall|i: int| 0 <= i < fields@.len() ==> #[trigger] fields@[i].key@ != "name_value"@ {
        assert forall|i: int| 0 <= i < views.len() implies (#[trigger] views[i]).0
            != "name_value"@ by {
            assert(fields@[i].key@ != "name_value"@);
        }
        lemma_missing(views);
    }
    assert forall|i: int, j: int|
        0 <= i < j < fields@.len() && #[trigger] fields@[i].key@ == "name_value"@
            && #[trigger] fields@[j].key@ == "name_value"@ implies r == Err::<String, RowFault>(
        RowFault::Repeated,
    ) by {
        lemma_repeated(views, i, j);
    }
    assert forall|k: int|
        0 <= k < fields@.len() && #[trigger] fields@[k].key@ == "name_value"@ && (forall|i: int|
            0 <= i < fields@.len() && i != k ==> #[trigger] fields@[i].key@ != "name_value"@)
        implies match fields@[k].value {
        Some(s) => r matches Ok(t) && t@ == s@,
        None => r == Err::<String, RowFault>(RowFault::NotAString),
    } by {
        assert forall|i: int| 0 <= i < views.len() && i != k implies (#[trigger] views[i]).0
            != "name_value"@ by {
            assert(fields@[i].key@ != "name_value"@);
        }
        lemma_single(views, k);
        assert(views[k] == fields@[k]@);
    }
}

proof fn lemma_no_match<A>(s: Seq<A>, keep: spec_fn(A) -> bool)
    requires
        forall|i: int| 0 <= i < s.len() ==> !keep(#[trigger] s[i]),
    ensures
        s.filter(keep) == Seq::<A>::empty(),
{
    if s.filter(keep).len() > 0 {
        let n = s.filter(keep)[0];
        assert(s.filter(keep).contains(n));
        lemma_filter_contains(s, keep, n);
        let i = choose|i: int| 0 <= i < s.len() && s[i] == n;
        assert(!keep(s[i]));
    }
}

proof fn lemma_missing(fields: Seq<(Seq<char>, Option<Seq<char>>)>)
    requires
        forall|i: int| 0 <= i < fields.len() ==> (#[trigger] fields[i]).0 != "name_value"@,
    ensures
        name_value_of(fields) == Err::<Seq<char>, RowFault>(RowFault::Missing),
{
    let keep = |f: (Seq<char>, Option<Seq<char>>)| is_name_value(f);
    lemma_no_match(fields, keep);
}

proof fn lemma_repeated(fields: Seq<(Seq<char>, Option<Seq<char>>)>, i: int, j: int)
    requires
        0 <= i < j < fields.len(),
        fields[i].0 == "name_value"@,
        fields[j].0 == "name_value"@,
    ensures
        name_value_of(fields) == Err::<Seq<char>, RowFault>(RowFault::Repeated),
{
    let keep = |f: (Seq<char>, Option<Seq<char>>)| is_name_value(f);
    let a = fields.take(j);
    let b = fields.skip(j);
    assert(fields == a + b);
    Seq::filter_distributes_over_add(a, b, keep);
    assert(a[i] == fields[i] && b[0] == fields[j]);
    assert(a.contains(fields[i]) && b.contains(fields[j]));
    lemma_filter_contains(a, keep, fields[i]);
    lemma_filter_contains(b, keep, fields[j]);
    assert(a.filter(keep).len() >= 1 && b.filter(keep).len() >= 1);
}

proof fn lemma_single(fields: Seq<(Seq<char>, Option<Seq<char>>)>, k: int)
    requires
        0 <= k < fields.len(),
        fields[k].0 == "name_value"@,
        forall|i: int|
            0 <= i < fields.len() && i != k ==> (#[trigger] fields[i]).0 != "name_value"@,
    ensures
        name_value_of(fields) == (match fields[k].1 {
            Some(s) => Ok(s),
            None => Err::<Seq<char>, RowFault>(RowFault::NotAString),
        }),
{
    let keep = |f: (Seq<char>, Option<Seq<char>>)| is_name_value(f);
    let a = fields.take(k);
    let m = seq![fields[k]];
    let b = fields.skip(k + 1);
    assert(fields == a + m + b);
    Seq::filter_distributes_over_add(a + m, b, keep);
    Seq::filter_distributes_over_add(a, m, keep);
    assert forall|i: int| 0 <= i < a.len() implies !keep(#[trigger] a[i]) by {
        assert(a[i] == fields[i]);
    }
    assert forall|i: int| 0 <= i < b.len() implies !keep(#[trigger] b[i]) by {
        assert(b[i] == fields[k + 1 + i]);
    }
    lemma_no_match(a, keep);
    lemma_no_match(b, keep);
    assert(m.filter(keep) == m) by {
        reveal(Seq::filter);
        assert(m.drop_last() == Seq::<(Seq<char>, Option<Seq<char>>)>::empty());
        assert(m.drop_last().filter(keep) == Seq::<(Seq<char>, Option<Seq<char>>)>::empty());
    }
    assert(fields.filter(keep) == m);
}

/// A field whose key is any text but `name_value` does not change what a row
/// holds, wherever it stands.
pub proof fn fields_of_other_keys_do_not_matter(
    before: Seq<(Seq<char>, Option<Seq<char>>)>,
    other: (Seq<char>, Option<Seq<char>>),
    behind: Seq<(Seq<char>, Option<Seq<char>>)>,
)
    requires
        other.0 != "name_value"@,
    ensures
        name_value_of(before + seq![other] + behind) == name_value_of(before + behind),
{
    crate::laws::other_fields_do_not_matter(before, other, behind);
}

/// Whether `gap` is nothing but spaces, tabs, line feeds and carriage returns.
pub open spec fn is_gap(gap: Seq<char>) -> bool {
    forall|i: int|
        0 <= i < gap.len() ==> #[trigger] gap[i] == ' ' || gap[i] == '\t' || gap[i] == '\n'
            || gap[i] == '\r'
}

/// Whether `text` is a gap, then `c`, then `rest`.
pub open spec fn begins_with(text: Seq<char>, c: char, rest: Seq<char>) -> bool {
    exists|gap: Seq<char>| #[trigger] is_gap(gap) && text == gap + seq![c] + rest
}

proof fn lemma_past_gap(gap: Seq<char>, c: char, rest: Seq<char>)
    requires
        is_gap(gap),
        !json_space(c),
    ensures
        past(gap + seq![c] + rest, c) == Some(rest),
    decreases gap.len(),
{
    let text = gap + seq![c] + rest;
    if gap.len() == 0 {
        assert(text.skip(1) == rest);
    } else {
        let tail = gap.skip(1);
        assert forall|i: int| 0 <= i < tail.len() implies #[trigger] tail[i] == ' ' || tail[i]
            == '\t' || tail[i] == '\n' || tail[i] == '\r' by {
            assert(tail[i] == gap[i + 1]);
        }
        assert(text.skip(1) == tail + seq![c] + rest);
        assert(text[0] == gap[0]);
        lemma_past_gap(tail, c, rest);
    }
}

proof fn lemma_past(text: Seq<char>, c: char, rest: Seq<char>)
    requires
        !json_space(c),
    ensures
        past(text, c) == Some(rest) <==> begins_with(text, c, rest),
    decreases text.len(),
{
    if begins_with(text, c, rest) {
        let gap = choose|gap: Seq<char>| #[trigger] is_gap(gap) && text == gap + seq![c] + rest;
        lemma_past_gap(gap, c, rest);
    }
    if past(text, c) == Some(rest) {
        if text[0] == c {
            let none = Seq::<char>::empty();
            assert(is_gap(none));
            assert(text == none + seq![c] + text.skip(1));
        } else {
            lemma_past(text.skip(1), c, rest);
            let tail = choose|gap: Seq<char>| #[trigger]
                is_gap(gap) && text.skip(1) == gap + seq![c] + rest;
            let gap = seq![text[0]] + tail;
            assert forall|i: int| 0 <= i < gap.len() implies #[trigger] gap[i] == ' ' || gap[i]
                == '\t' || gap[i] == '\n' || gap[i] == '\r' by {
                if i > 0 {
                    assert(gap[i] == tail[i - 1]);
                }
            }
            assert(is_gap(gap));
            assert(text == seq![text[0]] + text.skip(1));
            assert(text == gap + seq![c] + rest);
        }
    }
}

/// A field in the text of an object: the text from the field on, its key, and
/// the text from its value on.
pub type Part = (Seq<char>, Seq<char>, Seq<char>);

/// Whether the field `k` reads as a key, a colon and a value, and behind it
/// comes a comma and the next field, or the end of the object.
pub open spec fn reads_on(parts: Seq<Part>, k: int) -> bool {
    match (json_string_prefix(parts[k].0), json_value_rest(parts[k].2)) {
        (Some((key, behind_key)), Some(rest)) => {
            &&& key == parts[k].1
            &&& begins_with(behind_key, ':', parts[k].2)
            &&& if k + 1 == parts.len() {
                begins_with(rest, '}', Seq::empty())
            } else {
                &&& begins_with(rest, ',', parts[k + 1].0)
                &&& parts[k + 1].0.len() < parts[k].0.len()
            }
        },
        _ => false,
    }
}

/// Whether the parts are the fields of the object that `row` is.
pub open spec fn is_object(row: Seq<char>, parts: Seq<Part>) -> bool {
    &&& parts.len() > 0
    &&& begins_with(row, '{', parts[0].0)
    &&& !begins_with(parts[0].0, '}', Seq::empty())
    &&& forall|k: int| 0 <= k < parts.len() ==> #[trigger] reads_on(parts, k)
}

/// Whether the part `k` is the only one with the key `name_value`, and its
/// value begins with the string `s`.
pub open spec fn is_the_one(parts: Seq<Part>, k: int, s: Seq<char>) -> bool {
    &&& 0 <= k < parts.len()
    &&& parts[k].1 == "name_value"@
    &&& forall|i: int| 0 <= i < parts.len() && i != k ==> (#[trigger] parts[i]).1 != "name_value"@
    &&& json_string_prefix(parts[k].2) matches Some((string, _)) && string == s
}

/// Whether `row` is an array of the one string `s`.
pub open spec fn is_lone_string(row: Seq<char>, s: Seq<char>) -> bool {
    exists|inner: Seq<char>| #[trigger]
        begins_with(row, '[', inner) && (json_string_prefix(inner) matches Some((string, rest))
            && string == s && begins_with(rest, ']', Seq::empty()))
}

/// Whether `row` holds `s` as its names: it is an object with one field
/// `name_value`, of the value `s`, or an array of nothing but `s`.
pub open spec fn row_holds(row: Seq<char>, s: Seq<char>) -> bool {
    ||| exists|parts: Seq<Part>, k: int| #[trigger] is_object(row, parts) && #[trigger] is_the_one(
        parts,
        k,
        s,
    )
    ||| is_lone_string(row, s)
}

proof fn lemma_parts(text: Seq<char>) -> (parts: Seq<Part>)
    requires
        fields_from(text) is Some,
    ensures
        parts.len() == fields_from(text)->Some_0.len(),
        parts.len() > 0,
        parts[0].0 == text,
        forall|k: int| 0 <= k < parts.len() ==> #[trigger] reads_on(parts, k),
        forall|k: int|
            0 <= k < parts.len() ==> #[trigger] fields_from(text)->Some_0[k] == (
                parts[k].1,
                leading_string(parts[k].2),
            ),
    decreases text.len(),
{
    let none = Seq::<char>::empty();
    let (field, rest) = first_field(text)->Some_0;
    let (key, behind_key) = json_string_prefix(text)->Some_0;
    let value = past(behind_key, ':')->Some_0;
    lemma_past(behind_key, ':', value);
    let part = (text, key, value);
    lemma_past(rest, '}', none);
    if past(rest, '}') == Some(none) {
        let parts = seq![part];
        assert(reads_on(parts, 0));
        parts
    } else {
        let next = past(rest, ',')->Some_0;
        lemma_past(rest, ',', next);
        let more = lemma_parts(next);
        let parts = seq![part] + more;
        assert forall|k: int| 0 <= k < parts.len() implies #[trigger] reads_on(parts, k) by {
            if k == 0 {
                assert(parts[1] == more[0]);
            } else {
                assert(reads_on(more, k - 1));
                assert(parts[k] == more[k - 1]);
                if k + 1 < parts.len() {
                    assert(parts[k + 1] == more[k]);
                }
            }
        }
        let fields = fields_from(text)->Some_0;
        assert(fields == seq![field] + fields_from(next)->Some_0);
        assert forall|k: int| 0 <= k < parts.len() implies #[trigger] fields[k] == (
            parts[k].1,
            leading_string(parts[k].2),
        ) by {
            if k > 0 {
                assert(parts[k] == more[k - 1]);
                assert(fields[k] == fields_from(next)->Some_0[k - 1]);
            }
        }
        parts
    }
}

/// The keys and strings of the parts from `k` on.
spec fn fields_of(parts: Seq<Part>, k: int) -> Seq<(Seq<char>, Option<Seq<char>>)> {
    Seq::new(
        (parts.len() - k) as nat,
        |i: int| (parts[k + i].1, leading_string(parts[k + i].2)),
    )
}

proof fn lemma_fields(parts: Seq<Part>, k: int)
    requires
        0 <= k < parts.len(),
        forall|i: int| 0 <= i < parts.len() ==> #[trigger] reads_on(parts, i),
    ensures
        fields_from(parts[k].0) == Some(fields_of(parts, k)),
    decreases parts.len() - k,
{
    let none = Seq::<char>::empty();
    let text = parts[k].0;
    assert(reads_on(parts, k));
    let (key, behind_key) = json_string_prefix(text)->Some_0;
    lemma_past(behind_key, ':', parts[k].2);
    let rest = json_value_rest(parts[k].2)->Some_0;
    let field = (key, leading_string(parts[k].2));
    assert(first_field(text) == Some((field, rest)));
    if k + 1 == parts.len() {
        lemma_past(rest, '}', none);
        assert(fields_of(parts, k) == seq![field]);
    } else {
        lemma_past(rest, ',', parts[k + 1].0);
        lemma_comma_is_no_end(rest);
        lemma_fields(parts, k + 1);
        assert(fields_of(parts, k) == seq![field] + fields_of(parts, k + 1));
    }
}

proof fn lemma_comma_is_no_end(text: Seq<char>)
    requires
        past(text, ',') is Some,
    ensures
        past(text, '}') is None,
    decreases text.len(),
{
    if text[0] != ',' {
        lemma_comma_is_no_end(text.skip(1));
    }
}

proof fn lemma_brace_is_no_bracket(text: Seq<char>)
    ensures
        past(text, '{') is None || past(text, '[') is None,
    decreases text.len(),
{
    if text.len() > 0 && json_space(text[0]) {
        lemma_brace_is_no_bracket(text.skip(1));
    }
}

/// What counts as a row, and what it holds.
pub proof fn rows_hold_their_names(row: Seq<char>, s: Seq<char>)
    ensures
        row_name_value(row) == Some(s) <==> row_holds(row, s),
{
    let none = Seq::<char>::empty();
    lemma_brace_is_no_bracket(row);
    if row_name_value(row) == Some(s) {
        let fields = row_fields(row)->Some_0;
        match past(row, '{') {
            Some(text) => {
                lemma_past(row, '{', text);
                lemma_past(text, '}', none);
                if past(text, '}') == Some(none) {
                    lemma_missing(fields);
                } else {
                    let parts = lemma_parts(text);
                    assert(is_object(row, parts));
                    let k = lemma_one_of(fields, s);
                    assert(fields[k] == (parts[k].1, leading_string(parts[k].2)));
                    assert forall|i: int| 0 <= i < parts.len() && i != k implies (
                    #[trigger] parts[i]).1 != "name_value"@ by {
                        assert(fields[i].0 != "name_value"@);
                        assert(fields[i] == (parts[i].1, leading_string(parts[i].2)));
                    }
                    assert(is_the_one(parts, k, s));
                }
            },
            None => {
                let inner = past(row, '[')->Some_0;
                lemma_past(row, '[', inner);
                let (string, rest) = json_string_prefix(inner)->Some_0;
                lemma_past(rest, ']', none);
                lemma_single(fields, 0);
                assert(begins_with(row, '[', inner));
            },
        }
    }
    if exists|parts: Seq<Part>, k: int| #[trigger] is_object(row, parts) && #[trigger] is_the_one(
        parts,
        k,
        s,
    ) {
        let (parts, k) = choose|parts: Seq<Part>, k: int| #[trigger]
            is_object(row, parts) && #[trigger] is_the_one(parts, k, s);
        lemma_past(row, '{', parts[0].0);
        lemma_past(parts[0].0, '}', none);
        lemma_fields(parts, 0);
        let fields = fields_of(parts, 0);
        assert forall|i: int| 0 <= i < fields.len() && i != k implies (#[trigger] fields[i]).0
            != "name_value"@ by {
            assert(parts[i].1 != "name_value"@);
        }
        lemma_single(fields, k);
    }
    if is_lone_string(row, s) {
        let inner = choose|inner: Seq<char>| #[trigger]
            begins_with(row, '[', inner) && (json_string_prefix(inner) matches Some((string, rest))
                && string == s && begins_with(rest, ']', none));
        lemma_past(row, '[', inner);
        let (string, rest) = json_string_prefix(inner)->Some_0;
        lemma_past(rest, ']', none);
        let fields = seq![("name_value"@, Some(s))];
        assert(row_fields(row) == Some(fields));
        lemma_single(fields, 0);
    }
}

proof fn lemma_one_of(fields: Seq<(Seq<char>, Option<Seq<char>>)>, s: Seq<char>) -> (k: int)
    requires
        name_value_of(fields) == Ok::<Seq<char>, RowFault>(s),
    ensures
        0 <= k < fields.len(),
        fields[k] == ("name_value"@, Some(s)),
        forall|i: int|
            0 <= i < fields.len() && i != k ==> (#[trigger] fields[i]).0 != "name_value"@,
{
    if forall|i: int| 0 <= i < fields.len() ==> (#[trigger] fields[i]).0 != "name_value"@ {
        lemma_missing(fields);
    }
    let k = choose|k: int| 0 <= k < fields.len() && (#[trigger] fields[k]).0 == "name_value"@;
    assert forall|i: int| 0 <= i < fields.len() && i != k implies (#[trigger] fields[i]).0
        != "name_value"@ by {
        if fields[i].0 == "name_value"@ {
            if i < k {
                lemma_repeated(fields, i, k);
            } else {
                lemma_repeated(fields, k, i);
            }
        }
    }
    lemma_single(fields, k);
    k
}

/// Whether `body` is a response whose rows hold the name sets `values`: a JSON
/// array of such rows, or, without any, nothing but white space.
pub open spec fn is_response(body: Seq<char>, values: Seq<Seq<char>>) -> bool {
    if all_space(body) {
        values.len() == 0
    } else {
        json_array_items(body) matches Some(rows) && rows.len() == values.len() && forall|i: int|
            0 <= i < rows.len() ==> row_holds(#[trigger] rows[i], values[i])
    }
}

pub(crate) proof fn lemma_response(body: Seq<char>, values: Seq<Seq<char>>)
    ensures
        response_name_values(body) == Some(values) <==> is_response(body, values),
{
    crate::text::lemma_blank(body);
    if all_space(body) {
        assert forall|i: int| 0 <= i < body.len() implies white_space(#[trigger] body[i]) by {
            assert(is_space(body[i]));
            lemma_spaces(body[i]);
        }
        if values.len() == 0 {
            assert(values == Seq::<Seq<char>>::empty());
        }
    } else {
        if trim(body).len() == 0 {
            assert forall|i: int| 0 <= i < body.len() implies is_space(#[trigger] body[i]) by {
                assert(white_space(body[i]));
                lemma_spaces(body[i]);
            }
        }
        if let Some(rows) = json_array_items(body) {
            if response_name_values(body) == Some(values) {
                assert forall|i: int| 0 <= i < rows.len() implies row_holds(
                    #[trigger] rows[i],
                    values[i],
                ) by {
                    assert(row_name_value(rows[i]) is Some);
                    rows_hold_their_names(rows[i], values[i]);
                }
            }
            if is_response(body, values) {
                assert forall|i: int| 0 <= i < rows.len() implies row_name_value(#[trigger] rows[i])
                    == Some(values[i]) by {
                    assert(row_holds(rows[i], values[i]));
                    rows_hold_their_names(rows[i], values[i]);
                }
                let all = response_name_values(body)->Some_0;
                assert(all == values);
            }
        }
    }
}

/// The host names of a response are the names in its rows. A body that is no
/// response is an error of the parser.
pub proof fn parsed_hosts_are_the_names_of_the_rows(
    body: &str,
    r: Result<Vec<String>, CtError>,
    values: Seq<Seq<char>>,
)
    requires
        call_ensures(parse_crtsh_hostnames, (body,), r),
    ensures
        is_response(body@, values) ==> (r matches Ok(list) && holds_the_names(
            texts(list@),
            values,
        )),
        (forall|v: Seq<Seq<char>>| !#[trigger] is_response(body@, v)) ==> r matches Err(
            CtError::Parse(_),
        ),
{
    lemma_response(body@, values);
    if is_response(body@, values) {
        lemma_host_list(texts(r->Ok_0@), values);
    }
    if let Some(v) = response_name_values(body@) {
        lemma_response(body@, v);
    }
}

/// The subdomains of a response are the names in its rows but for the domain
/// itself: its core, in lower case. A body that is no response is an error of
/// the parser.
pub proof fn parsed_subdomains_are_the_other_names(
    body: &str,
    domain: &str,
    r: Result<Vec<String>, CtError>,
    values: Seq<Seq<char>>,
    own: Seq<char>,
)
    requires
        call_ensures(parse_crtsh_subdomains, (body, domain), r),
        is_core(domain@, own),
    ensures
        is_response(body@, values) ==> (r matches Ok(list) && holds_the_other_names(
            texts(list@),
            values,
            own,
        )),
        (forall|v: Seq<Seq<char>>| !#[trigger] is_response(body@, v)) ==> r matches Err(
            CtError::Parse(_),
        ),
{
    lemma_response(body@, values);
    if is_response(body@, values) {
        lemma_subdomain_list(texts(r->Ok_0@), values, domain@, own);
    }
    if let Some(v) = response_name_values(body@) {
        lemma_response(body@, v);
    }
}

} // verus!
