//! Query URLs of crt.sh and of its mirrors.

use vstd::prelude::*;

use crate::domain::{clean, clean_domain};
use crate::text::{chars_of, string_of, trim_end_char, trim_end_char_bound};

verus! {

/// Whether the byte `b` stands for itself in a URL: a letter, a digit, `-`,
/// `_`, `.` or `~`.
pub open spec fn unreserved(b: u8) -> bool {
    ||| '0' as u8 <= b <= '9' as u8
    ||| 'A' as u8 <= b <= 'Z' as u8
    ||| 'a' as u8 <= b <= 'z' as u8
    ||| b == '-' as u8
    ||| b == '_' as u8
    ||| b == '.' as u8
    ||| b == '~' as u8
}

/// The hexadecimal digit for a number below sixteen.
pub open spec fn hex_digit(n: u8) -> char {
    if n < 10 {
        ('0' as u8 + n) as char
    } else {
        ('A' as u8 + n - 10) as char
    }
}

/// The byte `b` in a URL: itself, or `%` and its two hexadecimal digits.
pub open spec fn encoded_byte(b: u8) -> Seq<char> {
    if unreserved(b) {
        seq![b as char]
    } else {
        seq!['%', hex_digit(b / 16), hex_digit(b % 16)]
    }
}

/// The bytes in a URL, one after the other.
pub open spec fn encoded(bytes: Seq<u8>) -> Seq<char>
    decreases bytes.len(),
{
    if bytes.len() == 0 {
        Seq::empty()
    } else {
        encoded(bytes.drop_last()) + encoded_byte(bytes.last())
    }
}

/// The domain as the value of a query parameter: clean, its UTF-8 bytes
/// percent-encoded.
pub open spec fn encoded_domain(domain: Seq<char>) -> Seq<char> {
    encoded(vstd::utf8::encode_utf8(clean(domain)))
}

/// The URL that asks `base` for the names certified under a domain.
pub open spec fn wildcard_url(base: Seq<char>, domain: Seq<char>) -> Seq<char> {
    base + "/?q=%."@ + encoded_domain(domain) + "&output=json"@
}

/// The URL that asks `base` for the certificates of a domain itself.
pub open spec fn apex_url(base: Seq<char>, domain: Seq<char>) -> Seq<char> {
    base + "/?q="@ + encoded_domain(domain) + "&output=json"@
}

/// `urlencoding::encode`: every byte of the UTF-8 encoding but letters,
/// digits, `-`, `_`, `.` and `~` becomes `%` and two hexadecimal digits, in
/// upper case.
#[verifier::external_body]
fn percent_encode(text: &str) -> (r: String)
    ensures
        r@ == encoded(vstd::utf8::encode_utf8(text@)),
{
    urlencoding::encode(text).into_owned()
}

/// `base`, then `selector`, then the encoded domain and the request for JSON.
fn query_url(base: &str, selector: &str, domain: &str) -> (r: String)
    ensures
        r@ == base@ + selector@ + encoded_domain(domain@) + "&output=json"@,
{
    let mut url = base.to_owned();
    url.append(selector);
    url.append(percent_encode(clean_domain(domain).as_str()).as_str());
    url.append("&output=json");
    url
}

/// The crt.sh query for every name certified under `domain`.
///
/// `%.` is the wildcard of an SQL `LIKE`. The domain is cleaned and
/// percent-encoded, so that nothing in it breaks out of the query parameter.
pub fn crtsh_query_url(domain: &str) -> (r: String)
    ensures
        r@ == wildcard_url("https://crt.sh"@, domain@),
{
    query_url("https://crt.sh", "/?q=%.", domain)
}

/// The crt.sh query for the certificates of `domain` itself.
///
/// A certificate that lists the domain and some of its subdomains, but no
/// wildcard, is found by this query and not by that of [`crtsh_query_url`].
pub fn crtsh_apex_query_url(domain: &str) -> (r: String)
    ensures
        r@ == apex_url("https://crt.sh"@, domain@),
{
    query_url("https://crt.sh", "/?q=", domain)
}

/// The base URL of a mirror, without the slashes at its end.
fn trimmed_base(base_url: &str) -> (r: String)
    ensures
        r@ == trim_end_char(base_url@, '/'),
{
    let cs = chars_of(base_url);
    let end = trim_end_char_bound(&cs, 0, cs.len(), '/');
    assert(cs@.subrange(0, cs@.len() as int) == base_url@);
    string_of(&cs, 0, end)
}

/// The two URLs that ask the mirror at `base_url` about `domain`: for the names
/// certified under it, and for its own certificates. There is nothing to ask
/// about a domain of which no character is left once it is clean.
pub fn discovery_urls(base_url: &str, domain: &str) -> (r: Option<(String, String)>)
    ensures
        r is None <==> clean(domain@).len() == 0,
        r matches Some(urls) ==> {
            &&& urls.0@ == wildcard_url(trim_end_char(base_url@, '/'), domain@)
            &&& urls.1@ == apex_url(trim_end_char(base_url@, '/'), domain@)
        },
{
    if clean_domain(domain).as_str().is_empty() {
        return None;
    }
    let base = trimmed_base(base_url);
    let wildcard = query_url(base.as_str(), "/?q=%.", domain);
    let apex = query_url(base.as_str(), "/?q=", domain);
    Some((wildcard, apex))
}

/// Whether `c` may stand in a percent-encoded text.
pub open spec fn url_safe(c: char) -> bool {
    c == '%' || ((c as u32) < 0x80 && unreserved(c as u8))
}

/// Whatever a domain holds, what stands for it in a query URL is made of
/// letters, digits, `-`, `_`, `.`, `~` and `%`: nothing that ends a query
/// parameter or a URL.
pub proof fn encoded_domain_cannot_break_out(domain: Seq<char>, i: int)
    requires
        0 <= i < encoded_domain(domain).len(),
    ensures
        url_safe(encoded_domain(domain)[i]),
{
    lemma_encoded_is_safe(vstd::utf8::encode_utf8(clean(domain)), i);
}

proof fn lemma_encoded_is_safe(bytes: Seq<u8>, i: int)
    requires
        0 <= i < encoded(bytes).len(),
    ensures
        url_safe(encoded(bytes)[i]),
    decreases bytes.len(),
{
    if bytes.len() > 0 {
        let init = encoded(bytes.drop_last());
        if i < init.len() {
            lemma_encoded_is_safe(bytes.drop_last(), i);
        } else {
            let b = bytes.last();
            assert(encoded(bytes)[i] == encoded_byte(b)[i - init.len()]);
        }
    }
}

} // verus!
