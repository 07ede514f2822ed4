//! What a query URL says, told by its characters.

use vstd::prelude::*;

use crate::domain::clean;
use crate::laws::forms::{every_text_has_a_core, is_core, lemma_core};
use crate::laws::hosts::{is_plain_host, lemma_plain_host};
use crate::laws::lemma_trim_end_char_ends;
use crate::text::trim_end_char;
use crate::url::{
    crtsh_apex_query_url, crtsh_query_url, discovery_urls, encoded, encoded_byte, encoded_domain,
    hex_digit, unreserved,
};

verus! {

/// Whether `c` stands for itself in a query.
pub open spec fn is_plain(c: char) -> bool {
    ||| 'a' <= c <= 'z'
    ||| 'A' <= c <= 'Z'
    ||| '0' <= c <= '9'
    ||| c == '-' || c == '.' || c == '_' || c == '~'
}

/// How the byte `b` is written in a query: as the character that it is, where
/// that is a plain one, and with a percent sign and two digits otherwise.
pub open spec fn written_byte(b: u8) -> Seq<char> {
    if is_plain(b as char) {
        seq![b as char]
    } else {
        seq!['%', "0123456789ABCDEF"@[b as int / 16], "0123456789ABCDEF"@[b as int % 16]]
    }
}

/// How a text is written in a query: its UTF-8 bytes, one after the other.
pub open spec fn written(text: Seq<char>) -> Seq<char> {
    let bytes = vstd::utf8::encode_utf8(text);
    Seq::new(bytes.len(), |i: int| written_byte(bytes[i])).flatten()
}

proof fn lemma_hex_digit(n: u8)
    requires
        n < 16,
    ensures
        hex_digit(n) == "0123456789ABCDEF"@[n as int],
{
    reveal_strlit("0123456789ABCDEF");
    assert("0123456789ABCDEF"@ == seq![
        '0',
        '1',
        '2',
        '3',
        '4',
        '5',
        '6',
        '7',
        '8',
        '9',
        'A',
        'B',
        'C',
        'D',
        'E',
        'F',
    ]);
}

proof fn lemma_plain_byte(b: u8, c: char)
    requires
        c as u32 == b,
    ensures
        unreserved(b) == is_plain(c),
{
}

proof fn lemma_written_byte(b: u8)
    ensures
        encoded_byte(b) == written_byte(b),
{
    lemma_plain_byte(b, b as char);
    lemma_hex_digit(b / 16);
    lemma_hex_digit(b % 16);
}

proof fn lemma_written_bytes(bytes: Seq<u8>)
    ensures
        encoded(bytes) == Seq::new(bytes.len(), |i: int| written_byte(bytes[i])).flatten(),
    decreases bytes.len(),
{
    let pieces = Seq::new(bytes.len(), |i: int| written_byte(bytes[i]));
    if bytes.len() == 0 {
        assert(pieces.flatten() == Seq::<char>::empty());
    } else {
        let init = bytes.drop_last();
        lemma_written_bytes(init);
        lemma_written_byte(bytes.last());
        let fewer = Seq::new(init.len(), |i: int| written_byte(init[i]));
        assert(pieces.drop_last() == fewer);
        pieces.lemma_flatten_and_flatten_alt_are_equivalent();
        fewer.lemma_flatten_and_flatten_alt_are_equivalent();
    }
}

pub(crate) proof fn lemma_written(domain: Seq<char>, core: Seq<char>)
    requires
        is_core(domain, core),
    ensures
        encoded_domain(domain) == written(core),
{
    lemma_core(domain, core);
    lemma_written_bytes(vstd::utf8::encode_utf8(core));
}

/// The query for the names under a domain: `%.` and the core of the domain
/// stand between the address and the request for JSON.
pub proof fn wildcard_query_asks_for_the_domain(domain: &str, r: String, core: Seq<char>)
    requires
        call_ensures(crtsh_query_url, (domain,), r),
        is_core(domain@, core),
    ensures
        r@ == "https://crt.sh/?q=%."@ + written(core) + "&output=json"@,
{
    lemma_written(domain@, core);
    reveal_strlit("https://crt.sh/?q=%.");
    reveal_strlit("https://crt.sh");
    reveal_strlit("/?q=%.");
    assert("https://crt.sh/?q=%."@ == "https://crt.sh"@ + "/?q=%."@);
}

/// The query for the certificates of a domain itself: nothing but the core of
/// the domain stands between the address and the request for JSON.
pub proof fn apex_query_asks_for_the_domain(domain: &str, r: String, core: Seq<char>)
    requires
        call_ensures(crtsh_apex_query_url, (domain,), r),
        is_core(domain@, core),
    ensures
        r@ == "https://crt.sh/?q="@ + written(core) + "&output=json"@,
{
    lemma_written(domain@, core);
    reveal_strlit("https://crt.sh/?q=");
    reveal_strlit("https://crt.sh");
    reveal_strlit("/?q=");
    assert("https://crt.sh/?q="@ == "https://crt.sh"@ + "/?q="@);
}

/// Whether `base` is `host` with nothing but slashes behind it, and `host` does
/// not end with one.
pub open spec fn is_host_with_slashes(base: Seq<char>, host: Seq<char>) -> bool {
    &&& host.is_prefix_of(base)
    &&& forall|i: int| host.len() <= i < base.len() ==> #[trigger] base[i] == '/'
    &&& host.len() > 0 ==> host.last() != '/'
}

pub(crate) proof fn lemma_slashes(base: Seq<char>, host: Seq<char>)
    ensures
        is_host_with_slashes(base, host) <==> host == trim_end_char(base, '/'),
    decreases base.len(),
{
    lemma_trim_end_char_ends(base, '/');
    if base.len() > 0 && base.last() == '/' {
        let shorter = base.drop_last();
        lemma_slashes(shorter, host);
        if is_host_with_slashes(base, host) {
            if host.len() == base.len() {
                assert(host == base);
            }
            assert(shorter.subrange(0, host.len() as int) == base.subrange(0, host.len() as int));
            assert forall|i: int| host.len() <= i < shorter.len() implies #[trigger] shorter[i]
                == '/' by {
                assert(base[i] == '/');
            }
        }
        if is_host_with_slashes(shorter, host) {
            assert(shorter.subrange(0, host.len() as int) == base.subrange(0, host.len() as int));
            assert forall|i: int| host.len() <= i < base.len() implies #[trigger] base[i]
                == '/' by {
                if i < shorter.len() {
                    assert(shorter[i] == '/');
                }
            }
        }
    } else {
        if is_host_with_slashes(base, host) {
            if host.len() < base.len() {
                assert(base[base.len() - 1] == '/');
            }
            assert(host == base);
        }
    }
}

/// A mirror is asked about a domain with the same two queries, at its own
/// address. Nothing is asked about a domain without a core.
pub proof fn mirrors_are_asked_for_the_domain(
    base_url: &str,
    domain: &str,
    r: Option<(String, String)>,
    host: Seq<char>,
    core: Seq<char>,
)
    requires
        call_ensures(discovery_urls, (base_url, domain), r),
        is_host_with_slashes(base_url@, host),
        is_core(domain@, core),
    ensures
        r is None <==> core.len() == 0,
        r matches Some(urls) ==> {
            &&& urls.0@ == host + "/?q=%."@ + written(core) + "&output=json"@
            &&& urls.1@ == host + "/?q="@ + written(core) + "&output=json"@
        },
{
    lemma_core(domain@, core);
    lemma_written(domain@, core);
    lemma_slashes(base_url@, host);
}

/// A text of plain characters is written as it is.
pub proof fn plain_text_is_written_in_full(text: Seq<char>)
    requires
        forall|i: int| 0 <= i < text.len() ==> is_plain(#[trigger] text[i]),
    ensures
        written(text) == text,
{
    let bytes = vstd::utf8::encode_utf8(text);
    lemma_written_bytes(bytes);
    assert forall|i: int| 0 <= i < text.len() implies '\0' <= #[trigger] text[i] <= '\u{7f}' by {
        assert(is_plain(text[i]));
    }
    vstd::utf8::is_ascii_chars_encode_utf8(text);
    assert forall|i: int| 0 <= i < bytes.len() implies unreserved(#[trigger] bytes[i]) by {
        assert(is_plain(text[i]));
        lemma_plain_byte(bytes[i], text[i]);
    }
    crate::laws::lemma_plain_bytes(bytes);
    assert forall|i: int| 0 <= i < text.len() implies encoded(bytes)[i] == #[trigger] text[i] by {
        vstd::utf8::char_u32_cast(text[i], text[i] as u32);
    }
}

/// A plain host name stands in its queries letter for letter.
pub proof fn plain_domain_stands_in_its_queries(domain: &str, r: String, s: String)
    requires
        call_ensures(crtsh_query_url, (domain,), r),
        call_ensures(crtsh_apex_query_url, (domain,), s),
        is_plain_host(domain@),
    ensures
        r@ == "https://crt.sh/?q=%."@ + domain@ + "&output=json"@,
        s@ == "https://crt.sh/?q="@ + domain@ + "&output=json"@,
{
    let n = domain@;
    lemma_plain_host(n);
    assert forall|i: int| 0 <= i < n.len() implies is_plain(#[trigger] n[i]) by {
        assert('a' <= n[i] <= 'z' || '0' <= n[i] <= '9' || n[i] == '-' || n[i] == '_' || n[i]
            == '.');
    }
    plain_text_is_written_in_full(n);
    wildcard_query_asks_for_the_domain(domain, r, n);
    apex_query_asks_for_the_domain(domain, s, n);
}

/// The bytes as they are written, one after the other.
spec fn written_bytes(bytes: Seq<u8>) -> Seq<char> {
    Seq::new(bytes.len(), |i: int| written_byte(bytes[i])).flatten()
}

proof fn lemma_written_first(bytes: Seq<u8>)
    requires
        bytes.len() > 0,
    ensures
        written_bytes(bytes) == written_byte(bytes[0]) + written_bytes(bytes.skip(1)),
{
    let pieces = Seq::new(bytes.len(), |i: int| written_byte(bytes[i]));
    let rest = bytes.skip(1);
    assert(pieces.drop_first() == Seq::new(rest.len(), |i: int| written_byte(rest[i])));
}

proof fn lemma_written_length(bytes: Seq<u8>)
    ensures
        written_bytes(bytes).len() == 0 <==> bytes.len() == 0,
{
    if bytes.len() == 0 {
        assert(Seq::new(bytes.len(), |i: int| written_byte(bytes[i])).flatten() == Seq::<
            char,
        >::empty());
    } else {
        lemma_written_first(bytes);
    }
}

proof fn lemma_digits_differ(i: int, j: int)
    requires
        0 <= i < 16,
        0 <= j < 16,
        "0123456789ABCDEF"@[i] == "0123456789ABCDEF"@[j],
    ensures
        i == j,
{
    lemma_hex_digit(i as u8);
    lemma_hex_digit(j as u8);
    let a = i as u8;
    let b = j as u8;
    assert(hex_digit(a) as u32 == (if a < 10 {
        48 + a
    } else {
        55 + a
    }));
    assert(hex_digit(b) as u32 == (if b < 10 {
        48 + b
    } else {
        55 + b
    }));
}

proof fn lemma_written_bytes_differ(x: Seq<u8>, y: Seq<u8>)
    requires
        written_bytes(x) == written_bytes(y),
    ensures
        x == y,
    decreases x.len(),
{
    if x.len() > 0 {
        lemma_written_first(x);
    }
    if y.len() > 0 {
        lemma_written_first(y);
    }
    let w = written_bytes(x);
    if x.len() == 0 || y.len() == 0 {
        lemma_written_length(x);
        lemma_written_length(y);
        assert(x == y);
    } else {
        let (a, b) = (x[0], y[0]);
        let (p, q) = (written_byte(a), written_byte(b));
        assert(w[0] == p[0] && w[0] == q[0]);
        assert(!is_plain('%'));
        if is_plain(a as char) {
            assert(is_plain(b as char));
            assert(a as char as u32 == b as char as u32);
        } else {
            if is_plain(b as char) {
                assert(b as char == '%');
            }
            assert(w[1] == p[1] && w[1] == q[1]);
            assert(w[2] == p[2] && w[2] == q[2]);
            lemma_digits_differ(a as int / 16, b as int / 16);
            lemma_digits_differ(a as int % 16, b as int % 16);
        }
        assert(a == b);
        assert(w.skip(p.len() as int) == written_bytes(x.skip(1)));
        assert(w.skip(p.len() as int) == written_bytes(y.skip(1)));
        lemma_written_bytes_differ(x.skip(1), y.skip(1));
        assert(x == seq![a] + x.skip(1));
        assert(y == seq![b] + y.skip(1));
    }
}

/// Different texts are written in different ways.
pub proof fn written_texts_differ(a: Seq<char>, b: Seq<char>)
    requires
        written(a) == written(b),
    ensures
        a == b,
{
    lemma_written_bytes_differ(vstd::utf8::encode_utf8(a), vstd::utf8::encode_utf8(b));
    crate::text::lemma_encoding_is_injective(a, b);
}

/// Two domains have the same query, for the names under them or for their own
/// certificates, only where they have the same core.
pub proof fn queries_about_different_domains_differ(
    domain: &str,
    other: &str,
    r: String,
    s: String,
    core: Seq<char>,
)
    requires
        ({
            ||| call_ensures(crtsh_query_url, (domain,), r) && call_ensures(
                crtsh_query_url,
                (other,),
                s,
            )
            ||| call_ensures(crtsh_apex_query_url, (domain,), r) && call_ensures(
                crtsh_apex_query_url,
                (other,),
                s,
            )
        }),
        is_core(domain@, core),
    ensures
        r@ == s@ <==> is_core(other@, core),
{
    every_text_has_a_core(other@);
    let second = clean(other@);
    if is_core(other@, core) {
        lemma_core(other@, core);
    }
    let tail = "&output=json"@;
    if call_ensures(crtsh_query_url, (domain,), r) && call_ensures(crtsh_query_url, (other,), s) {
        wildcard_query_asks_for_the_domain(domain, r, core);
        wildcard_query_asks_for_the_domain(other, s, second);
        lemma_middle("https://crt.sh/?q=%."@, written(core), written(second), tail);
    } else {
        apex_query_asks_for_the_domain(domain, r, core);
        apex_query_asks_for_the_domain(other, s, second);
        lemma_middle("https://crt.sh/?q="@, written(core), written(second), tail);
    }
    if r@ == s@ {
        written_texts_differ(core, second);
    }
}

proof fn lemma_middle(head: Seq<char>, a: Seq<char>, b: Seq<char>, tail: Seq<char>)
    ensures
        head + a + tail == head + b + tail ==> a == b,
{
    if head + a + tail == head + b + tail {
        let x = head + a + tail;
        let h = head.len() as int;
        let y = head + b + tail;
        assert(x.len() == h + a.len() + tail.len() && y.len() == h + b.len() + tail.len());
        assert(a == x.subrange(h, h + a.len()));
        assert(b == x.subrange(h, h + b.len()));
    }
}

} // verus!
