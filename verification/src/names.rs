//! From a crt.sh response to a clean list of host names.

use vstd::prelude::*;

use crate::diagnosis::reader_error;
use crate::domain::{clean, clean_bounds};
use crate::error::CtError;
use crate::json::{array_items, json_array_items, read_name_value, row_name_value};
use crate::order::{ascending, sort_and_dedup, texts};
use crate::text::{
    chars_of, control, is_blank, is_control, is_whitespace, lower, lower_string_of, trim,
    white_space,
};

verus! {

/// One row of a crt.sh response.
#[derive(Debug)]
pub struct CrtShEntry {
    /// The common name and subject alternative names of a certificate,
    /// newline-separated.
    pub name_value: String,
}

impl Clone for CrtShEntry {
    fn clone(&self) -> (r: CrtShEntry)
        ensures
            r == *self,
    {
        CrtShEntry { name_value: self.name_value.clone() }
    }
}

/// The name sets of a list of rows.
pub open spec fn name_values(entries: Seq<CrtShEntry>) -> Seq<Seq<char>> {
    Seq::new(entries.len(), |i: int| entries[i].name_value@)
}

/// Whether the characters of `value` from `a` up to `b` are one of its lines.
pub open spec fn is_line(value: Seq<char>, a: int, b: int) -> bool {
    &&& 0 <= a <= b <= value.len()
    &&& forall|i: int| a <= i < b ==> #[trigger] value[i] != '\n'
    &&& a == 0 || value[a - 1] == '\n'
    &&& b == value.len() || value[b] == '\n'
}

/// A raw name in its normal form: clean, and in lower case.
pub open spec fn normalized(raw: Seq<char>) -> Seq<char> {
    lower(clean(raw))
}

/// Whether `c` never stands in a host name: white space, a control code, a
/// wildcard, or what marks a scheme, a user, a port or a path.
pub open spec fn foreign(c: char) -> bool {
    white_space(c) || control(c) || c == '*' || c == '/' || c == ':' || c == '@'
}

/// Whether `n` can be the name of a host: it is not empty, has no empty label
/// inside of it and no character that never stands in a host name.
pub open spec fn hostname(n: Seq<char>) -> bool {
    &&& n.len() > 0
    &&& forall|i: int| 0 <= i < n.len() ==> !foreign(#[trigger] n[i])
    &&& forall|i: int| 0 < i < n.len() ==> !(n[i - 1] == '.' && #[trigger] n[i] == '.')
}

/// Whether a line of the name set `value` is `n` in its normal form.
pub open spec fn lists(value: Seq<char>, n: Seq<char>) -> bool {
    exists|a: int, b: int| #[trigger] is_line(value, a, b) && n == normalized(value.subrange(a, b))
}

/// Whether `n` is a host that one of the name sets lists.
pub open spec fn is_host_of(values: Seq<Seq<char>>, n: Seq<char>) -> bool {
    hostname(n) && exists|i: int| 0 <= i < values.len() && lists(#[trigger] values[i], n)
}

/// Whether `list` holds the hosts of the name sets: all of them, nothing else,
/// in order and each once.
pub open spec fn is_host_list(list: Seq<Seq<char>>, values: Seq<Seq<char>>) -> bool {
    &&& ascending(list)
    &&& forall|n: Seq<char>| list.contains(n) <==> is_host_of(values, n)
}

/// The queried domain as it would stand in a host list.
pub open spec fn apex(domain: Seq<char>) -> Seq<char> {
    normalized(domain)
}

/// Whether `list` holds the hosts of the name sets but for the queried domain:
/// in order and each once.
pub open spec fn is_subdomain_list(
    list: Seq<Seq<char>>,
    values: Seq<Seq<char>>,
    domain: Seq<char>,
) -> bool {
    &&& ascending(list)
    &&& forall|n: Seq<char>| list.contains(n) <==> is_host_of(values, n) && n != apex(domain)
}

/// The name sets of the rows of a response; nothing where it is not a JSON
/// array of rows. A response of nothing but white space has no rows.
pub open spec fn response_name_values(body: Seq<char>) -> Option<Seq<Seq<char>>> {
    if trim(body).len() == 0 {
        Some(Seq::empty())
    } else {
        match json_array_items(body) {
            None => None,
            Some(rows) => if forall|i: int|
                0 <= i < rows.len() ==> row_name_value(#[trigger] rows[i]) is Some {
                Some(Seq::new(rows.len(), |i: int| row_name_value(rows[i])->Some_0))
            } else {
                None
            },
        }
    }
}

/// Whether the characters from `lo` up to `hi`, in lower case, can be the name
/// of a host.
fn is_hostname(cs: &Vec<char>, lo: usize, hi: usize) -> (r: bool)
    requires
        lo <= hi <= cs@.len(),
    ensures
        r == hostname(lower(cs@.subrange(lo as int, hi as int))),
{
    let ghost n = lower(cs@.subrange(lo as int, hi as int));
    if lo == hi {
        return false;
    }
    let mut i: usize = lo;
    while i < hi
        invariant
            lo <= i <= hi <= cs@.len(),
            n == lower(cs@.subrange(lo as int, hi as int)),
            forall|k: int| 0 <= k < i - lo ==> !foreign(#[trigger] n[k]),
            forall|k: int| 0 < k < i - lo ==> !(n[k - 1] == '.' && #[trigger] n[k] == '.'),
        decreases hi - i,
    {
        let c = cs[i];
        assert(n[i - lo] == crate::text::lower_char(c));
        if is_whitespace(c) || is_control(c) || c == '*' || c == '/' || c == ':' || c == '@' {
            return false;
        }
        if i > lo && c == '.' && cs[i - 1] == '.' {
            assert(n[i - lo - 1] == '.');
            return false;
        }
        i += 1;
    }
    true
}

/// Whether a line of `value` that ends before `end` is `n` in its normal form.
spec fn lists_before(value: Seq<char>, end: int, n: Seq<char>) -> bool {
    exists|a: int, b: int|
        #[trigger] is_line(value, a, b) && b < end && n == normalized(value.subrange(a, b))
}

/// The hosts that the name set `value` lists, line by line.
fn line_hosts(value: &str) -> (r: Vec<String>)
    ensures
        forall|n: Seq<char>|
            #[trigger] texts(r@).contains(n) <==> hostname(n) && lists(value@, n),
{
    let cs = chars_of(value);
    let mut names: Vec<String> = Vec::new();
    let mut start: usize = 0;
    let mut i: usize = 0;
    loop
        invariant
            cs@ == value@,
            start <= i <= cs@.len(),
            start == 0 || cs@[start - 1] == '\n',
            forall|k: int| start <= k < i ==> #[trigger] cs@[k] != '\n',
            forall|n: Seq<char>|
                #[trigger] texts(names@).contains(n) <==> hostname(n) && lists_before(
                    cs@,
                    start as int,
                    n,
                ),
        decreases cs@.len() - i,
    {
        if i == cs.len() || cs[i] == '\n' {
            let (lo, hi) = clean_bounds(&cs, start, i);
            let ghost raw = cs@.subrange(start as int, i as int);
            let ghost held = names@;
            assert(is_line(cs@, start as int, i as int));
            if is_hostname(&cs, lo, hi) {
                names.push(lower_string_of(&cs, lo, hi));
            }
            assert forall|n: Seq<char>| #[trigger]
                texts(names@).contains(n) <==> hostname(n) && lists_before(
                cs@,
                i as int + 1,
                n,
            ) by {
                lemma_lists_step(cs@, start as int, i as int, n);
                if hostname(normalized(raw)) {
                    assert(names@ == held.push(names@.last()));
                    lemma_texts_push(held, names@.last(), n);
                } else {
                    assert(names@ == held);
                }
                assert(texts(held).contains(n) <==> hostname(n) && lists_before(
                    cs@,
                    start as int,
                    n,
                ));
            }
            if i == cs.len() {
                assert forall|n: Seq<char>| #[trigger]
                    texts(names@).contains(n) <==> hostname(n) && lists(cs@, n) by {
                    if lists(cs@, n) {
                        let (a, b) = choose|a: int, b: int|
                            #[trigger] is_line(cs@, a, b) && n == normalized(cs@.subrange(a, b));
                        assert(is_line(cs@, a, b) && b < i as int + 1);
                    }
                }
                return names;
            }
            start = i + 1;
        }
        i += 1;
    }
}

proof fn lemma_texts_push(v: Seq<String>, s: String, n: Seq<char>)
    ensures
        texts(v.push(s)).contains(n) <==> texts(v).contains(n) || s@ == n,
{
    assert(texts(v.push(s)) == texts(v).push(s@));
    if texts(v).contains(n) {
        let i = choose|i: int| 0 <= i < v.len() && texts(v)[i] == n;
        assert(texts(v.push(s))[i] == n);
    }
    if s@ == n {
        assert(texts(v.push(s))[v.len() as int] == n);
    }
}

pub(crate) proof fn lemma_texts_append(v: Seq<String>, w: Seq<String>, n: Seq<char>)
    ensures
        texts(v + w).contains(n) <==> texts(v).contains(n) || texts(w).contains(n),
{
    let s = texts(v + w);
    if texts(v).contains(n) {
        let i = choose|i: int| 0 <= i < v.len() && texts(v)[i] == n;
        assert(s[i] == n);
    }
    if texts(w).contains(n) {
        let i = choose|i: int| 0 <= i < w.len() && texts(w)[i] == n;
        assert(s[v.len() + i] == n);
    }
    if s.contains(n) {
        let i = choose|i: int| 0 <= i < s.len() && s[i] == n;
        if i < v.len() {
            assert(texts(v)[i] == n);
        } else {
            assert(texts(w)[i - v.len()] == n);
        }
    }
}

/// A line from `start` up to `end` is the only one that ends there or later
/// but not behind `end`.
proof fn lemma_lists_step(value: Seq<char>, start: int, end: int, n: Seq<char>)
    requires
        is_line(value, start, end),
    ensures
        lists_before(value, end + 1, n) <==> lists_before(value, start, n) || n == normalized(
            value.subrange(start, end),
        ),
{
    if lists_before(value, end + 1, n) {
        let (a, b) = choose|a: int, b: int|
            #[trigger] is_line(value, a, b) && b < end + 1 && n == normalized(value.subrange(a, b));
        if b >= start {
            if b < end {
                assert(value[b] != '\n');
            }
            if a < start {
                assert(value[start - 1] != '\n');
            } else if a > start {
                assert(value[a - 1] != '\n');
            }
        }
    }
    if lists_before(value, start, n) {
        let (a, b) = choose|a: int, b: int|
            #[trigger] is_line(value, a, b) && b < start && n == normalized(value.subrange(a, b));
        assert(is_line(value, a, b) && b < end + 1);
    }
}

/// The hosts that the rows list: in order, and each once.
///
/// A name set holds one raw name per line. Of each, the white space around it
/// is dropped, then the wildcard labels and dots in front of it and the dots
/// behind it, and ASCII letters go to lower case. What cannot be the name of a
/// host then is left out.
pub fn entry_hostnames(entries: &Vec<CrtShEntry>) -> (r: Vec<String>)
    ensures
        is_host_list(texts(r@), name_values(entries@)),
{
    let ghost values = name_values(entries@);
    let mut names: Vec<String> = Vec::new();
    let mut i: usize = 0;
    while i < entries.len()
        invariant
            values == name_values(entries@),
            i <= entries@.len(),
            forall|n: Seq<char>|
                #[trigger] texts(names@).contains(n) <==> is_host_of(values.take(i as int), n),
        decreases entries@.len() - i,
    {
        let ghost held = names@;
        let mut more = line_hosts(entries[i].name_value.as_str());
        let ghost added = more@;
        names.append(&mut more);
        assert forall|n: Seq<char>| #[trigger]
            texts(names@).contains(n) <==> is_host_of(values.take(i + 1), n) by {
            lemma_host_step(values, i as int, n);
            lemma_texts_append(held, added, n);
            assert(texts(held).contains(n) <==> is_host_of(values.take(i as int), n));
        }
        i += 1;
    }
    assert(values.take(i as int) == values);
    sort_and_dedup(&names)
}

proof fn lemma_host_step(values: Seq<Seq<char>>, i: int, n: Seq<char>)
    requires
        0 <= i < values.len(),
    ensures
        is_host_of(values.take(i + 1), n) <==> is_host_of(values.take(i), n) || (hostname(n)
            && lists(values[i], n)),
{
    let s = values.take(i);
    let t = values.take(i + 1);
    if is_host_of(t, n) {
        let k = choose|k: int| 0 <= k < t.len() && lists(#[trigger] t[k], n);
        if k < i {
            assert(s[k] == t[k]);
        }
    }
    if is_host_of(s, n) {
        let k = choose|k: int| 0 <= k < s.len() && lists(#[trigger] s[k], n);
        assert(t[k] == s[k]);
    }
    if hostname(n) && lists(values[i], n) {
        assert(t[i] == values[i]);
    }
}

/// `names` without the queried `domain`.
///
/// The domain is left out however it was typed: in any letter case, with
/// white space around it, as a wildcard, with a dot at its end.
pub fn without_apex(names: &Vec<String>, domain: &str) -> (r: Vec<String>)
    ensures
        texts(r@) == texts(names@).filter(|n: Seq<char>| n != apex(domain@)),
{
    let cs = chars_of(domain);
    let (lo, hi) = clean_bounds(&cs, 0, cs.len());
    assert(cs@.subrange(0, cs@.len() as int) == domain@);
    let own = lower_string_of(&cs, lo, hi);
    let ghost keep = |n: Seq<char>| n != apex(domain@);
    let mut out: Vec<String> = Vec::new();
    let mut i: usize = 0;
    assert(texts(names@).take(0).filter(keep) == Seq::<Seq<char>>::empty()) by {
        reveal(Seq::filter);
    }
    while i < names.len()
        invariant
            own@ == apex(domain@),
            keep == (|n: Seq<char>| n != apex(domain@)),
            i <= names@.len(),
            texts(out@) == texts(names@).take(i as int).filter(keep),
        decreases names@.len() - i,
    {
        let ghost held = out@;
        if !(names[i] == own) {
            out.push(names[i].clone());
            assert(texts(out@) == texts(held).push(names@[i as int]@));
        }
        proof {
            crate::json::lemma_filter_step(texts(names@), i as int, keep);
        }
        i += 1;
    }
    assert(texts(names@).take(i as int) == texts(names@));
    out
}

pub(crate) proof fn lemma_filter_ascending(list: Seq<Seq<char>>, keep: spec_fn(Seq<char>) -> bool)
    requires
        ascending(list),
    ensures
        ascending(list.filter(keep)),
        forall|n: Seq<char>| list.filter(keep).contains(n) <==> list.contains(n) && keep(n),
    decreases list.len(),
{
    reveal(Seq::filter);
    if list.len() > 0 {
        let init = list.drop_last();
        assert forall|i: int, j: int| 0 <= i < j < init.len() implies crate::order::name_before(
            #[trigger] init[i],
            #[trigger] init[j],
        ) by {
            assert(crate::order::name_before(list[i], list[j]));
        }
        lemma_filter_ascending(init, keep);
        let kept = init.filter(keep);
        let out = list.filter(keep);
        assert forall|n: Seq<char>| out.contains(n) <==> list.contains(n) && keep(n) by {
            assert(list == init.push(list.last()));
            if kept.contains(n) {
                let i = choose|i: int| 0 <= i < kept.len() && kept[i] == n;
                assert(out[i] == n);
            }
            if init.contains(n) {
                let i = choose|i: int| 0 <= i < init.len() && init[i] == n;
                assert(list[i] == n);
            }
            if keep(list.last()) {
                assert(out.last() == list.last());
            }
            if out.contains(n) {
                let i = choose|i: int| 0 <= i < out.len() && out[i] == n;
                if i < kept.len() {
                    assert(kept[i] == n);
                }
            }
        }
        assert forall|i: int, j: int| 0 <= i < j < out.len() implies crate::order::name_before(
            #[trigger] out[i],
            #[trigger] out[j],
        ) by {
            assert(out[i] == kept[i]);
            if j < kept.len() {
                assert(crate::order::name_before(kept[i], kept[j]));
            } else {
                assert(init.contains(kept[i])) by {
                    assert(kept.contains(kept[i]));
                }
                let k = choose|k: int| 0 <= k < init.len() && init[k] == kept[i];
                assert(crate::order::name_before(list[k], list[list.len() - 1]));
            }
        }
    }
}

/// The rows of a response.
fn response_entries(body: &str) -> (r: Result<Vec<CrtShEntry>, CtError>)
    ensures
        match response_name_values(body@) {
            Some(values) => r matches Ok(entries) && name_values(entries@) == values,
            None => r matches Err(CtError::Parse(_)),
        },
{
    let mut entries: Vec<CrtShEntry> = Vec::new();
    if is_blank(body) {
        assert(name_values(entries@) == Seq::<Seq<char>>::empty());
        return Ok(entries);
    }
    let rows = match array_items(body) {
        Ok(rows) => rows,
        Err(_) => return Err(CtError::from(reader_error(body))),
    };
    let mut i: usize = 0;
    while i < rows.len()
        invariant
            json_array_items(body@) == Some(texts(rows@)),
            trim(body@).len() != 0,
            i <= rows@.len(),
            entries@.len() == i,
            forall|k: int|
                0 <= k < i ==> row_name_value(#[trigger] rows@[k]@) == Some(
                    entries@[k].name_value@,
                ),
        decreases rows@.len() - i,
    {
        match read_name_value(rows[i].as_str()) {
            Some(name_value) => entries.push(CrtShEntry { name_value }),
            None => {
                assert(row_name_value(texts(rows@)[i as int]) is None);
                return Err(CtError::from(reader_error(body)));
            },
        }
        i += 1;
    }
    proof {
        let all = texts(rows@);
        assert forall|k: int|
            0 <= k < all.len() implies row_name_value(#[trigger] all[k]) is Some by {
            assert(row_name_value(rows@[k]@) is Some);
        }
        assert forall|k: int| 0 <= k < all.len() implies name_values(entries@)[k] == row_name_value(
            all[k],
        )->Some_0 by {
            assert(row_name_value(rows@[k]@) == Some(entries@[k].name_value@));
        }
        assert(name_values(entries@) == response_name_values(body@)->Some_0);
    }
    Ok(entries)
}

/// The host names of a crt.sh response, the queried domain among them: in
/// order, and each once.
///
/// This is for origin discovery, where the domain itself is a candidate.
pub fn parse_crtsh_hostnames(body: &str) -> (r: Result<Vec<String>, CtError>)
    ensures
        match response_name_values(body@) {
            Some(values) => r matches Ok(names) && is_host_list(texts(names@), values),
            None => r matches Err(CtError::Parse(_)),
        },
{
    match response_entries(body) {
        Ok(entries) => Ok(entry_hostnames(&entries)),
        Err(e) => Err(e),
    }
}

/// The host names of a crt.sh response without the queried `domain`: in
/// order, and each once.
///
/// This is for subdomain enumeration, where the domain itself is known.
pub fn parse_crtsh_subdomains(body: &str, domain: &str) -> (r: Result<Vec<String>, CtError>)
    ensures
        match response_name_values(body@) {
            Some(values) => r matches Ok(names) && is_subdomain_list(
                texts(names@),
                values,
                domain@,
            ),
            None => r matches Err(CtError::Parse(_)),
        },
{
    match parse_crtsh_hostnames(body) {
        Ok(names) => {
            proof {
                lemma_filter_ascending(texts(names@), |n: Seq<char>| n != apex(domain@));
            }
            Ok(without_apex(&names, domain))
        },
        Err(e) => Err(e),
    }
}

} // verus!
