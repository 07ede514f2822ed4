# ctlog

Certificate Transparency (crt.sh) name discovery, verified with Verus: ask a CT
log for every name certified under a domain, and turn the response into a clean
list of host names, in order and each once.

- `src/` is the library. It builds query URLs (`url`), reads responses (`json`,
  `names`), words the error of one that cannot be read (`diagnosis`), and decides
  about attempts and their results (`fetch`). `domain` and `text` say what the
  clean form of a name is, `order` what a list in order is. `laws` holds what is
  proved of the library as a whole.
- `app/` sends the requests with `reqwest`, and holds the types with derives of
  `serde` and `thiserror`.
- `tests/` runs the library with the outside crates linked.

## Names

A row of a response holds the names of a certificate, newline-separated. Of each
name the white space around it is dropped, then the wildcard labels `*.` and the
dots in front of it, then the dots behind it, and ASCII letters go to lower case.
Left out are empty names, names with an empty label inside, and names with white
space, control codes, or one of `*`, `/`, `:`, `@`. `parse_crtsh_hostnames` lists
what remains; `parse_crtsh_subdomains` leaves out the queried domain as well,
however it was typed.

## Attempts

A query gets three attempts, with waits of 500 and 1000 ms between them. Failures
of the transport, a status of 429 or from 500 to 599, and a page in HTML in place
of a response are worth another attempt; anything else ends the query. A body
over the byte cap (32 MiB by default) is not buffered any further. A discovery
asks two questions, for the names under the domain and for its own certificates,
and gets by with one answer where the other question met such a failure.

## What is trusted

- `serde_json` splits a response into rows (`array_items`) and reads strings and
  values (`read_string`, `skip_value`). It words the errors of bodies that are no
  response (`objects_error`, `tuples_error` in `diagnosis`), and `custom` of
  `serde::de::Error` makes an error from a message (`json_error`).
- `urlencoding` percent-encodes.
- `String::push` and `String::from_utf8` of `std`.
- Three types are opaque, carried but never looked into: `serde_json::Error`,
  `reqwest::Error` and `std::string::FromUtf8Error`. What an error says is
  therefore not part of any contract. `tests/diagnosis.rs` holds the words and
  positions of parse errors against those of a reader that reads a response in
  one go.

The contracts stand beside the calls.
