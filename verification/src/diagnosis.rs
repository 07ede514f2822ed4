//! What is wrong with a body that is not a crt.sh response.
//!
//! A reader that goes through a body from its start, into rows of the struct
//! `CrtShEntry`, stops at the first thing that it cannot accept, and its error
//! names that thing, its line and its column. This is the error that is made
//! here. Where the fault is one of JSON, or a value of the wrong type,
//! `serde_json` words the error itself: it reads the body from the faulty row
//! on, with all that stands before the row blanked out, so that lines and
//! columns stay what they are.
//!
//! Errors are opaque, so no contract speaks of their words.

use vstd::prelude::*;

use crate::json::{after, array_items, json_error, read_string, skip_value};
use crate::text::{chars_of, string_of};

verus! {

/// Whether `text` is a JSON array of objects.
pub uninterp spec fn json_objects(text: Seq<char>) -> bool;

/// Whether `text` is a JSON array of arrays of one string.
pub uninterp spec fn json_string_tuples(text: Seq<char>) -> bool;

/// `serde_json::from_str`, into a vector of maps with values that are ignored:
/// the error where `text` is no JSON array of objects. An error is opaque, so
/// what it says is not stated.
#[verifier::external_body]
fn objects_error(text: &str) -> (r: Option<serde_json::Error>)
    ensures
        r is None <==> json_objects(text@),
{
    serde_json::from_str::<
        Vec<std::collections::BTreeMap<String, serde::de::IgnoredAny>>,
    >(text).err()
}

/// `serde_json::from_str`, into a vector of tuples of one string: the error
/// where `text` is no JSON array of arrays of one string. An error is opaque,
/// so what it says is not stated.
#[verifier::external_body]
fn tuples_error(text: &str) -> (r: Option<serde_json::Error>)
    ensures
        r is None <==> json_string_tuples(text@),
{
    serde_json::from_str::<Vec<(String,)>>(text).err()
}

/// The number of line breaks among the bytes.
pub open spec fn line_breaks(bytes: Seq<u8>) -> nat
    decreases bytes.len(),
{
    if bytes.len() == 0 {
        0
    } else {
        line_breaks(bytes.drop_last()) + if bytes.last() == 10 {
            1nat
        } else {
            0nat
        }
    }
}

/// The number of bytes behind the last line break.
pub open spec fn bytes_on_last_line(bytes: Seq<u8>) -> nat
    decreases bytes.len(),
{
    if bytes.len() == 0 || bytes.last() == 10 {
        0
    } else {
        bytes_on_last_line(bytes.drop_last()) + 1
    }
}

/// The line that the end of the bytes stands on, counted from one, and how many
/// bytes stand on it.
fn line_and_column(bytes: &[u8], end: usize) -> (r: (usize, usize))
    requires
        end <= bytes@.len(),
    ensures
        line_breaks(bytes@.take(end as int)) < usize::MAX ==> r.0 == 1 + line_breaks(
            bytes@.take(end as int),
        ),
        r.1 == bytes_on_last_line(bytes@.take(end as int)),
{
    let mut breaks: usize = 0;
    let mut column: usize = 0;
    let mut i: usize = 0;
    while i < end
        invariant
            i <= end <= bytes@.len(),
            breaks <= i,
            column <= i,
            breaks == line_breaks(bytes@.take(i as int)),
            column == bytes_on_last_line(bytes@.take(i as int)),
        decreases end - i,
    {
        assert(bytes@.take(i + 1).drop_last() == bytes@.take(i as int));
        if bytes[i] == 10 {
            breaks += 1;
            column = 0;
        } else {
            column += 1;
        }
        i += 1;
    }
    (breaks.saturating_add(1), column)
}

/// The UTF-8 bytes of a text.
pub open spec fn bytes_of(text: Seq<char>) -> Seq<u8> {
    vstd::utf8::encode_utf8(text)
}

/// How many bytes of `body` stand before its end part `rest`.
pub open spec fn bytes_before(body: Seq<char>, rest: Seq<char>) -> int {
    if bytes_of(rest).len() <= bytes_of(body).len() {
        bytes_of(body).len() - bytes_of(rest).len()
    } else {
        0
    }
}

/// How many bytes of `body` stand before its end part `rest`.
fn offset_of(body: &str, rest: &str) -> (r: usize)
    ensures
        r == bytes_before(body@, rest@),
{
    let all: usize = body.as_bytes().len();
    let end: usize = rest.as_bytes().len();
    if end <= all {
        all - end
    } else {
        0
    }
}

/// An error with this message, behind the first `offset` bytes of `body`.
fn error_at(message: &str, body: &str, offset: usize) -> serde_json::Error
    requires
        offset <= bytes_of(body@).len(),
{
    let (line, column) = line_and_column(body.as_bytes(), offset);
    let mut text = message.to_owned();
    text.append(" at line ");
    text.append(line.to_string().as_str());
    text.append(" column ");
    text.append(column.to_string().as_str());
    json_error(text.as_str())
}

/// The bytes blanked out, but for line breaks, and for the opening bracket of
/// the array at `open`.
pub open spec fn blanks(bytes: Seq<u8>, open: Option<usize>) -> Seq<char> {
    Seq::new(
        bytes.len(),
        |i: int|
            if open matches Some(k) && k == i {
                '['
            } else if bytes[i] == 10 {
                '\n'
            } else {
                ' '
            },
    )
}

/// The end part `rest` of `body`, with what stands before it blanked out.
fn blanked(body: &str, open: Option<usize>, rest: &str) -> (r: String)
    ensures
        r@ == blanks(bytes_of(body@).take(bytes_before(body@, rest@)), open) + rest@,
{
    let bytes = body.as_bytes();
    let end: usize = offset_of(body, rest);
    let mut text = String::new();
    let mut i: usize = 0;
    assert(blanks(bytes@.take(0), open) == Seq::<char>::empty());
    while i < end
        invariant
            i <= end <= bytes@.len(),
            text@ == blanks(bytes@.take(i as int), open),
        decreases end - i,
    {
        let opens = match open {
            Some(k) => k == i,
            None => false,
        };
        if opens {
            text.push('[');
        } else if bytes[i] == 10 {
            text.push('\n');
        } else {
            text.push(' ');
        }
        assert(text@ == blanks(bytes@.take(i + 1), open));
        i += 1;
    }
    text.append(rest);
    text
}

/// Whether `b` is a byte of white space between the tokens of JSON.
pub open spec fn space_byte(b: u8) -> bool {
    b == 0x20 || b == 0x9 || b == 0xa || b == 0xd
}

/// How many bytes of white space `text` begins with.
fn leading_space(text: &str) -> (r: usize)
    ensures
        r <= bytes_of(text@).len(),
        forall|i: int| 0 <= i < r ==> space_byte(#[trigger] bytes_of(text@)[i]),
        r < bytes_of(text@).len() ==> !space_byte(bytes_of(text@)[r as int]),
{
    let bytes = text.as_bytes();
    let mut i: usize = 0;
    while i < bytes.len()
        invariant
            i <= bytes@.len(),
            bytes@ == bytes_of(text@),
            forall|j: int| 0 <= j < i ==> space_byte(#[trigger] bytes@[j]),
        decreases bytes@.len() - i,
    {
        let b: u8 = bytes[i];
        if !(b == 0x20 || b == 0x9 || b == 0xa || b == 0xd) {
            return i;
        }
        i += 1;
    }
    i
}

/// Whether `text` is nothing but white space.
fn is_at_end(text: &str) -> (r: bool)
    ensures
        r <==> forall|i: int|
            0 <= i < bytes_of(text@).len() ==> space_byte(#[trigger] bytes_of(text@)[i]),
{
    leading_space(text) == text.as_bytes().len()
}

/// How many bytes of `body` stand before its end part `rest` and the first
/// token in it.
fn offset_of_token(body: &str, rest: &str) -> (r: usize)
    ensures
        bytes_before(body@, rest@) <= r <= bytes_of(body@).len(),
{
    let offset: usize = offset_of(body, rest);
    let space: usize = leading_space(rest);
    let behind: usize = body.as_bytes().len() - offset;
    if space <= behind {
        offset + space
    } else {
        offset + behind
    }
}

/// Whether `part` stands in `text` at `i`.
pub open spec fn stands_at(text: Seq<char>, part: Seq<char>, i: int) -> bool {
    0 <= i && i + part.len() <= text.len() && text.subrange(i, i + part.len()) == part
}

/// `text` with `new` in place of the last `part` in it; nothing where it holds
/// none.
fn replace_last(text: &str, part: &str, new: &str) -> (r: Option<String>)
    ensures
        match r {
            Some(s) => exists|i: int|
                {
                    &&& #[trigger] stands_at(text@, part@, i)
                    &&& forall|j: int| i < j ==> !#[trigger] stands_at(text@, part@, j)
                    &&& s@ == text@.take(i) + new@ + text@.skip(i + part@.len())
                },
            None => forall|i: int| !#[trigger] stands_at(text@, part@, i),
        },
{
    let chars = chars_of(text);
    let want = part.to_owned();
    let len: usize = chars_of(part).len();
    if len > chars.len() {
        return None;
    }
    let mut i: usize = chars.len() - len;
    loop
        invariant
            chars@ == text@,
            want@ == part@,
            len == part@.len(),
            i + len <= chars@.len() <= usize::MAX,
            forall|j: int| i < j ==> !#[trigger] stands_at(text@, part@, j),
        decreases i,
    {
        let end: usize = i + len;
        let here = string_of(&chars, i, end) == want;
        assert(here == stands_at(text@, part@, i as int));
        if here {
            let mut s = string_of(&chars, 0, i);
            s.append(new);
            s.append(string_of(&chars, end, chars.len()).as_str());
            assert(s@ == text@.take(i as int) + new@ + text@.skip(i + part@.len()));
            return Some(s);
        }
        if i == 0 {
            return None;
        }
        i -= 1;
    }
}

/// The error of a body that is no array of JSON values.
fn array_error(body: &str) -> serde_json::Error {
    match array_items(body) {
        Err(e) => e,
        Ok(_) => json_error("expected an array of rows"),
    }
}

/// The error of a row that is no object of JSON values.
fn object_error(body: &str, open: Option<usize>, row: &str) -> serde_json::Error {
    match objects_error(blanked(body, open, row).as_str()) {
        Some(e) => e,
        None => json_error("expected an object"),
    }
}

/// The error of a row that is no array of one string, but for an empty array.
fn tuple_error(body: &str, open: Option<usize>, row: &str) -> serde_json::Error {
    match tuples_error(blanked(body, open, row).as_str()) {
        Some(e) => e,
        None => json_error("expected an array of one string"),
    }
}

/// The error of a row that is neither an object nor an array: what was expected
/// in its place is the struct.
fn type_error(body: &str, open: Option<usize>, row: &str) -> serde_json::Error {
    let e = object_error(body, open, row);
    match replace_last(e.to_string().as_str(), "expected a map", "expected struct CrtShEntry") {
        Some(text) => json_error(text.as_str()),
        None => e,
    }
}

/// The error of a value that is no string.
fn string_error(body: &str, value: &str) -> serde_json::Error {
    match read_string(blanked(body, None, value).as_str()) {
        Err(e) => e,
        Ok(_) => json_error("expected a string"),
    }
}

/// The error of an object without `name_value`, of which `rest` stands behind
/// it.
fn missing_error(body: &str, rest: &str) -> serde_json::Error {
    error_at("missing field `name_value`", body, offset_of(body, rest))
}

/// The error of an object with a second `name_value`, of which `rest` stands
/// behind the key. Where the object ends there, the error stands behind it.
fn repeated_error(body: &str, rest: &str) -> serde_json::Error {
    let offset: usize = match after(rest, '}') {
        Some(end) => offset_of(body, end),
        None => offset_of_token(body, rest),
    };
    error_at("duplicate field `name_value`", body, offset)
}

/// The error of an empty array in place of a row, of which `rest` stands behind
/// it.
fn length_error(body: &str, rest: &str) -> serde_json::Error {
    error_at(
        "invalid length 0, expected struct CrtShEntry with 1 element",
        body,
        offset_of(body, rest),
    )
}

/// Reads the object that `row` begins with, of which `text` stands behind `{`:
/// what stands behind the object, or the first thing that is wrong with it.
fn read_past_object<'a>(body: &str, open: Option<usize>, row: &str, text: &'a str) -> (r: Result<
    &'a str,
    serde_json::Error,
>)
    ensures
        r matches Ok(rest) ==> rest@.len() < text@.len(),
{
    if let Some(rest) = after(text, '}') {
        return Err(missing_error(body, rest));
    }
    let name = "name_value".to_owned();
    let mut found = false;
    let mut at = text;
    loop
        invariant
            at@.len() <= text@.len(),
        decreases at@.len(),
    {
        let (key, behind_key) = match read_string(at) {
            Ok(parts) => parts,
            Err(_) => return Err(object_error(body, open, row)),
        };
        let named = key == name;
        if named && found {
            return Err(repeated_error(body, behind_key));
        }
        let value = match after(behind_key, ':') {
            Some(value) => value,
            None => return Err(object_error(body, open, row)),
        };
        if is_at_end(value) {
            return Err(object_error(body, open, row));
        }
        let rest = if named {
            found = true;
            match read_string(value) {
                Ok((_, rest)) => rest,
                Err(_) => return Err(string_error(body, value)),
            }
        } else {
            match skip_value(value) {
                Ok(rest) => rest,
                Err(_) => return Err(object_error(body, open, row)),
            }
        };
        if let Some(end) = after(rest, '}') {
            return if found {
                Ok(end)
            } else {
                Err(missing_error(body, end))
            };
        }
        match after(rest, ',') {
            Some(next) => at = next,
            None => return Err(object_error(body, open, row)),
        }
    }
}

/// Reads the row that the end part `row` of `body` begins with: what stands
/// behind it, or the first thing that is wrong with it.
fn read_past_row<'a>(body: &str, open: Option<usize>, row: &'a str) -> (r: Result<
    &'a str,
    serde_json::Error,
>)
    ensures
        r matches Ok(rest) ==> rest@.len() < row@.len(),
{
    if let Some(text) = after(row, '{') {
        return read_past_object(body, open, row, text);
    }
    match after(row, '[') {
        None => Err(type_error(body, open, row)),
        Some(items) => {
            if let Some(rest) = after(items, ']') {
                return Err(length_error(body, rest));
            }
            match read_string(items) {
                Ok((_, rest)) => match after(rest, ']') {
                    Some(end) => Ok(end),
                    None => Err(tuple_error(body, open, row)),
                },
                Err(_) => Err(tuple_error(body, open, row)),
            }
        },
    }
}

/// The error of the first thing in `body` that is wrong with it as an array of
/// rows.
pub(crate) fn reader_error(body: &str) -> serde_json::Error {
    let items = match after(body, '[') {
        Some(items) => items,
        None => return array_error(body),
    };
    let open: Option<usize> = offset_of(body, items).checked_sub(1);
    let mut at = items;
    loop
        decreases at@.len(),
    {
        if is_at_end(at) || after(at, ']').is_some() {
            return array_error(body);
        }
        match read_past_row(body, open, at) {
            Err(e) => return e,
            Ok(rest) => match after(rest, ',') {
                Some(next) => at = next,
                None => return array_error(body),
            },
        }
    }
}

} // verus!
