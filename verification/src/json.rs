//! Rows of a crt.sh response in JSON.
//!
//! `serde_json` splits the response into its rows and reads the strings and
//! values inside of them. What a row may look like is decided here.

use vstd::prelude::*;

use crate::order::texts;

verus! {

/// The items of the JSON array `text`, each as the JSON text that stands for
/// it, without white space around it; nothing where `text` is not a JSON
/// array.
pub uninterp spec fn json_array_items(text: Seq<char>) -> Option<Seq<Seq<char>>>;

/// The string that `text` begins with, as a JSON string after any amount of
/// white space, and the text behind it.
pub uninterp spec fn json_string_prefix(text: Seq<char>) -> Option<(Seq<char>, Seq<char>)>;

/// The text behind the JSON value that `text` begins with after any amount of
/// white space.
pub uninterp spec fn json_value_rest(text: Seq<char>) -> Option<Seq<char>>;

/// `serde_json::from_str`, into a vector of raw values: the texts of the items
/// of a JSON array, or an error where `text` is none.
#[verifier::external_body]
pub(crate) fn array_items(text: &str) -> (r: Result<Vec<String>, serde_json::Error>)
    ensures
        (match r {
            Ok(items) => Some(texts(items@)),
            Err(_) => None,
        }) == json_array_items(text@),
{
    let items: Vec<&serde_json::value::RawValue> = serde_json::from_str(text)?;
    Ok(items.into_iter().map(|item| item.get().to_string()).collect())
}

/// The first item of `serde_json`'s stream of strings over `text`, and what
/// stands behind it. A string takes up at least one character of the text.
#[verifier::external_body]
pub(crate) fn read_string(text: &str) -> (r: Result<(String, &str), serde_json::Error>)
    ensures
        (match r {
            Ok((s, rest)) => Some((s@, rest@)),
            Err(_) => None,
        }) == json_string_prefix(text@),
        r matches Ok((_, rest)) ==> rest@.len() < text@.len(),
{
    let mut strings = serde_json::Deserializer::from_str(text).into_iter::<String>();
    match strings.next() {
        Some(Ok(s)) => Ok((s, &text[strings.byte_offset()..])),
        Some(Err(e)) => Err(e),
        None => Err(serde::de::Error::custom("EOF while parsing a value")),
    }
}

/// What stands behind the first item of `serde_json`'s stream of ignored
/// values over `text`. A value takes up at least one character of the text.
#[verifier::external_body]
pub(crate) fn skip_value(text: &str) -> (r: Result<&str, serde_json::Error>)
    ensures
        (match r {
            Ok(rest) => Some(rest@),
            Err(_) => None,
        }) == json_value_rest(text@),
        r matches Ok(rest) ==> rest@.len() < text@.len(),
{
    let mut values = serde_json::Deserializer::from_str(text).into_iter::<serde::de::IgnoredAny>();
    match values.next() {
        Some(Ok(_)) => Ok(&text[values.byte_offset()..]),
        Some(Err(e)) => Err(e),
        None => Err(serde::de::Error::custom("EOF while parsing a value")),
    }
}

/// `custom` of `serde::de::Error`: an error with this message. An error is
/// opaque, so nothing is stated of it.
#[verifier::external_body]
pub(crate) fn json_error(message: &str) -> (r: serde_json::Error) {
    serde::de::Error::custom(message)
}

/// Whether `c` is white space between the tokens of JSON.
pub open spec fn json_space(c: char) -> bool {
    c == ' ' || c == '\t' || c == '\n' || c == '\r'
}

/// The text behind the character `c`, where `text` begins with `c` after any
/// amount of white space.
pub open spec fn past(text: Seq<char>, c: char) -> Option<Seq<char>>
    decreases text.len(),
{
    if text.len() == 0 {
        None
    } else if text[0] == c {
        Some(text.skip(1))
    } else if json_space(text[0]) {
        past(text.skip(1), c)
    } else {
        None
    }
}

/// A field of a row: its key, and its value where that is a string.
pub struct Field {
    /// The key.
    pub key: String,
    /// The value, where it is a string.
    pub value: Option<String>,
}

impl View for Field {
    type V = (Seq<char>, Option<Seq<char>>);

    open spec fn view(&self) -> (Seq<char>, Option<Seq<char>>) {
        (
            self.key@,
            match self.value {
                Some(s) => Some(s@),
                None => None,
            },
        )
    }
}

/// The views of a list of fields.
pub open spec fn field_views(v: Seq<Field>) -> Seq<(Seq<char>, Option<Seq<char>>)> {
    Seq::new(v.len(), |i: int| v[i]@)
}

/// Why a row holds no names.
pub enum RowFault {
    /// It has no field `name_value`.
    Missing,
    /// It has more than one field `name_value`.
    Repeated,
    /// Its field `name_value` is not a string.
    NotAString,
}

/// Whether `f` is the field that holds the names of a row.
pub open spec fn is_name_value(f: (Seq<char>, Option<Seq<char>>)) -> bool {
    f.0 == "name_value"@
}

/// What a row with these fields holds as its one `name_value`.
pub open spec fn name_value_of(
    fields: Seq<(Seq<char>, Option<Seq<char>>)>,
) -> Result<Seq<char>, RowFault> {
    let named = fields.filter(|f: (Seq<char>, Option<Seq<char>>)| is_name_value(f));
    if named.len() == 0 {
        Err(RowFault::Missing)
    } else if named.len() > 1 {
        Err(RowFault::Repeated)
    } else {
        match named[0].1 {
            Some(s) => Ok(s),
            None => Err(RowFault::NotAString),
        }
    }
}

/// The string that `text` begins with.
pub open spec fn leading_string(text: Seq<char>) -> Option<Seq<char>> {
    match json_string_prefix(text) {
        Some((s, _)) => Some(s),
        None => None,
    }
}

/// The field that `text` begins with, and the text behind it.
pub open spec fn first_field(text: Seq<char>) -> Option<
    ((Seq<char>, Option<Seq<char>>), Seq<char>),
> {
    match json_string_prefix(text) {
        None => None,
        Some((key, behind_key)) => match past(behind_key, ':') {
            None => None,
            Some(value) => match json_value_rest(value) {
                None => None,
                Some(rest) => Some(((key, leading_string(value)), rest)),
            },
        },
    }
}

/// The fields of an object of which `text` is what stands behind `{`, or
/// behind the comma after a field.
pub open spec fn fields_from(text: Seq<char>) -> Option<Seq<(Seq<char>, Option<Seq<char>>)>>
    decreases text.len(),
{
    match first_field(text) {
        None => None,
        Some((field, rest)) => if past(rest, '}') == Some(Seq::<char>::empty()) {
            Some(seq![field])
        } else {
            match past(rest, ',') {
                Some(next) => if next.len() < text.len() {
                    match fields_from(next) {
                        Some(more) => Some(seq![field] + more),
                        None => None,
                    }
                } else {
                    None
                },
                None => None,
            }
        },
    }
}

/// The fields of a row. A row is an object, or an array whose one item is the
/// string that would be the object's `name_value`.
pub open spec fn row_fields(row: Seq<char>) -> Option<Seq<(Seq<char>, Option<Seq<char>>)>> {
    match past(row, '{') {
        Some(text) => if past(text, '}') == Some(Seq::<char>::empty()) {
            Some(Seq::empty())
        } else {
            fields_from(text)
        },
        None => match past(row, '[') {
            None => None,
            Some(text) => match json_string_prefix(text) {
                None => None,
                Some((s, rest)) => if past(rest, ']') == Some(Seq::<char>::empty()) {
                    Some(seq![("name_value"@, Some(s))])
                } else {
                    None
                },
            },
        },
    }
}

/// The names that a row holds, newline-separated; nothing where it is not a
/// row of crt.sh.
pub open spec fn row_name_value(row: Seq<char>) -> Option<Seq<char>> {
    match row_fields(row) {
        None => None,
        Some(fields) => match name_value_of(fields) {
            Ok(s) => Some(s),
            Err(_) => None,
        },
    }
}

/// The UTF-8 bytes of a text that begins with an ASCII character.
pub(crate) proof fn lemma_first_byte(s: Seq<char>)
    ensures
        s.len() == 0 <==> vstd::utf8::encode_utf8(s).len() == 0,
        s.len() > 0 ==> !vstd::utf8::is_continuation_byte(vstd::utf8::encode_utf8(s)[0]),
        s.len() > 0 ==> ((s[0] as u32) < 0x80 <==> vstd::utf8::encode_utf8(s)[0] < 0x80),
        s.len() > 0 && (s[0] as u32) < 0x80 ==> {
            &&& vstd::utf8::encode_utf8(s)[0] == s[0] as u32
            &&& vstd::utf8::encode_utf8(s).skip(1) == vstd::utf8::encode_utf8(s.skip(1))
        },
{
    if s.len() > 0 {
        let b = vstd::utf8::encode_utf8(s);
        vstd::utf8::encode_utf8_first_scalar(s);
        vstd::utf8::char_is_scalar(s[0]);
        assert(s.drop_first() == s.skip(1));
        let first = b[0];
        assert(first <= 0x7f ==> first & 0x7f == first) by (bit_vector);
        if (s[0] as u32) < 0x80 {
            assert(b.skip(1) == vstd::utf8::encode_utf8(s.skip(1)));
        }
    }
}

/// The text behind the ASCII character `c`, where `text` begins with `c` after
/// any amount of white space.
pub(crate) fn after(text: &str, c: char) -> (r: Option<&str>)
    requires
        (c as u32) < 0x80,
    ensures
        (match r {
            Some(rest) => Some(rest@),
            None => None,
        }) == past(text@, c),
        r matches Some(rest) ==> rest@.len() < text@.len(),
{
    let want: u8 = c as u8;
    let bytes = text.as_bytes();
    let mut i: usize = 0;
    assert(text@.skip(0) == text@ && bytes@.skip(0) == bytes@);
    while i < bytes.len()
        invariant
            want == c as u32,
            want < 0x80,
            bytes@ == vstd::utf8::encode_utf8(text@),
            i <= bytes@.len(),
            i <= text@.len(),
            bytes@.skip(i as int) == vstd::utf8::encode_utf8(text@.skip(i as int)),
            past(text@.skip(i as int), c) == past(text@, c),
        decreases bytes@.len() - i,
    {
        let b: u8 = bytes[i];
        proof {
            lemma_first_byte(text@.skip(i as int));
            assert(bytes@.skip(i as int)[0] == b);
            assert(text@.skip(i as int).skip(1) == text@.skip(i + 1));
            assert(bytes@.skip(i as int).skip(1) == bytes@.skip(i + 1));
            let first = text@.skip(i as int)[0];
            if b < 0x80 {
                vstd::utf8::char_u32_cast(first, b as u32);
                assert(first == b as char);
            }
        }
        if b == want {
            proof {
                let next = text@.skip(i + 1);
                lemma_first_byte(next);
                vstd::utf8::encode_utf8_valid_utf8(text@);
                if i + 1 == bytes@.len() {
                    vstd::utf8::is_char_boundary_start_end_of_seq(bytes@);
                } else {
                    assert(bytes@[i + 1] == bytes@.skip(i + 1)[0]);
                    vstd::utf8::is_char_boundary_iff_not_is_continuation_byte(bytes@, i + 1);
                }
            }
            let (_, rest) = text.split_at(i + 1);
            proof {
                assert(bytes@.subrange(i + 1, bytes@.len() as int) == bytes@.skip(i + 1));
                crate::text::lemma_encoding_is_injective(rest@, text@.skip(i + 1));
            }
            return Some(rest);
        }
        if b == 0x20 || b == 0x9 || b == 0xa || b == 0xd {
            i += 1;
        } else {
            return None;
        }
    }
    proof {
        lemma_first_byte(text@.skip(i as int));
    }
    None
}

/// Whether `text` is the end of a row behind the closing character `c`.
fn closes(text: &str, c: char) -> (r: bool)
    requires
        (c as u32) < 0x80,
    ensures
        r == (past(text@, c) == Some(Seq::<char>::empty())),
{
    match after(text, c) {
        Some(rest) => {
            let empty = rest.is_empty();
            assert(empty ==> rest@ == Seq::<char>::empty());
            empty
        },
        None => false,
    }
}

/// The field that `text` begins with, and the text behind it.
fn read_field(text: &str) -> (r: Option<(Field, &str)>)
    ensures
        (match r {
            Some((field, rest)) => Some((field@, rest@)),
            None => None,
        }) == first_field(text@),
        r matches Some((_, rest)) ==> rest@.len() < text@.len(),
{
    let (key, behind_key) = match read_string(text) {
        Ok(parts) => parts,
        Err(_) => return None,
    };
    let value = match after(behind_key, ':') {
        Some(value) => value,
        None => return None,
    };
    let rest = match skip_value(value) {
        Ok(rest) => rest,
        Err(_) => return None,
    };
    let string = match read_string(value) {
        Ok((s, _)) => Some(s),
        Err(_) => None,
    };
    Some((Field { key, value: string }, rest))
}

/// The fields of an object of which `text` is what stands behind `{`.
fn read_fields(text: &str) -> (r: Option<Vec<Field>>)
    ensures
        (match r {
            Some(fields) => Some(field_views(fields@)),
            None => None,
        }) == fields_from(text@),
{
    let mut fields: Vec<Field> = Vec::new();
    let mut at = text;
    assert(field_views(fields@) == Seq::<(Seq<char>, Option<Seq<char>>)>::empty());
    assert(fields_from(text@) matches Some(f) ==> Seq::empty() + f == f);
    loop
        invariant
            fields_from(text@) == (match fields_from(at@) {
                Some(more) => Some(field_views(fields@) + more),
                None => None,
            }),
        decreases at@.len(),
    {
        let ghost before = field_views(fields@);
        let (field, rest) = match read_field(at) {
            Some(parts) => parts,
            None => return None,
        };
        let ghost view = field@;
        fields.push(field);
        assert(field_views(fields@) == before + seq![view]);
        if closes(rest, '}') {
            return Some(fields);
        }
        match after(rest, ',') {
            Some(next) => {
                assert(fields_from(next@) matches Some(more) ==> before + (seq![view] + more) == (
                before + seq![view]) + more);
                at = next;
            },
            None => return None,
        }
    }
}

/// The fields of a row.
fn read_row(row: &str) -> (r: Option<Vec<Field>>)
    ensures
        (match r {
            Some(fields) => Some(field_views(fields@)),
            None => None,
        }) == row_fields(row@),
{
    match after(row, '{') {
        Some(text) => {
            if closes(text, '}') {
                let none: Vec<Field> = Vec::new();
                assert(field_views(none@) == Seq::<(Seq<char>, Option<Seq<char>>)>::empty());
                Some(none)
            } else {
                read_fields(text)
            }
        },
        None => match after(row, '[') {
            Some(text) => match read_string(text) {
                Ok((s, rest)) => {
                    if closes(rest, ']') {
                        let key = "name_value".to_owned();
                        let mut fields: Vec<Field> = Vec::new();
                        let ghost view = ("name_value"@, Some(s@));
                        fields.push(Field { key, value: Some(s) });
                        assert(field_views(fields@) == seq![view]);
                        Some(fields)
                    } else {
                        None
                    }
                },
                Err(_) => None,
            },
            None => None,
        },
    }
}

/// What a row with these fields holds as its one `name_value`. Fields with
/// other keys do not matter.
pub fn name_value(fields: &Vec<Field>) -> (r: Result<String, RowFault>)
    ensures
        (match r {
            Ok(s) => Ok(s@),
            Err(fault) => Err(fault),
        }) == name_value_of(field_views(fields@)),
{
    let ghost all = field_views(fields@);
    let ghost keep = |f: (Seq<char>, Option<Seq<char>>)| is_name_value(f);
    let key = "name_value".to_owned();
    let mut found: Option<usize> = None;
    let mut i: usize = 0;
    assert(all.take(0).filter(keep) == Seq::<(Seq<char>, Option<Seq<char>>)>::empty()) by {
        reveal(Seq::filter);
    }
    while i < fields.len()
        invariant
            all == field_views(fields@),
            keep == (|f: (Seq<char>, Option<Seq<char>>)| is_name_value(f)),
            key@ == "name_value"@,
            i <= fields@.len(),
            match found {
                None => all.take(i as int).filter(keep).len() == 0,
                Some(k) => k < i && all.take(i as int).filter(keep) == seq![all[k as int]],
            },
        decreases fields@.len() - i,
    {
        let same = fields[i].key == key;
        proof {
            lemma_filter_step(all, i as int, keep);
        }
        if same {
            if found.is_some() {
                proof {
                    lemma_filter_grows(all, i + 1, all.len() as int, keep);
                    assert(all.take(all.len() as int) == all);
                }
                return Err(RowFault::Repeated);
            }
            found = Some(i);
        }
        i += 1;
    }
    assert(all.take(i as int) == all);
    match found {
        None => Err(RowFault::Missing),
        Some(k) => match &fields[k].value {
            Some(s) => Ok(s.clone()),
            None => Err(RowFault::NotAString),
        },
    }
}

pub(crate) proof fn lemma_filter_step<A>(s: Seq<A>, i: int, keep: spec_fn(A) -> bool)
    requires
        0 <= i < s.len(),
    ensures
        s.take(i + 1).filter(keep) == (if keep(s[i]) {
            s.take(i).filter(keep).push(s[i])
        } else {
            s.take(i).filter(keep)
        }),
{
    reveal(Seq::filter);
    assert(s.take(i + 1).drop_last() == s.take(i));
}

proof fn lemma_filter_grows<A>(s: Seq<A>, i: int, j: int, keep: spec_fn(A) -> bool)
    requires
        0 <= i <= j <= s.len(),
    ensures
        s.take(i).filter(keep).len() <= s.take(j).filter(keep).len(),
    decreases j - i,
{
    if i < j {
        lemma_filter_step(s, j - 1, keep);
        lemma_filter_grows(s, i, j - 1, keep);
    }
}

/// The names that a row holds, newline-separated.
pub(crate) fn read_name_value(row: &str) -> (r: Option<String>)
    ensures
        (match r {
            Some(s) => Some(s@),
            None => None,
        }) == row_name_value(row@),
{
    match read_row(row) {
        Some(fields) => match name_value(&fields) {
            Ok(s) => Some(s),
            Err(_) => None,
        },
        None => None,
    }
}

} // verus!
