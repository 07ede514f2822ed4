//! What a query and a discovery do when they are told something, told by the
//! numbers and bytes in it.

use vstd::prelude::*;

use crate::domain::clean_domain;
use crate::error::CtError;
use crate::fetch::{
    advances, asks_apex, combine, follows, is_markup, is_outcome_of, is_retryable, is_union,
    read_response, retryable, Action, CtOptions, Discovery, Event, Query, Stage, Step,
    CT_MAX_RETRIES, CT_QUERY_TIMEOUT_SECS, CT_RESPONSE_MAX_BYTES, CT_RETRY_BACKOFF_MS,
    SERVICE_UNAVAILABLE,
};
use crate::json::{name_value, Field};
use crate::laws::forms::{is_core, lemma_core};
use crate::laws::hosts::{
    holds_the_other_names, in_order, lemma_ascending, lemma_in_order, lemma_subdomain_list,
    may_be_listed, named_in, names,
};
use crate::laws::rows::{is_response, lemma_response};
use crate::laws::urls::{is_host_with_slashes, lemma_slashes, written};
use crate::names::{
    entry_hostnames, is_subdomain_list, parse_crtsh_hostnames, parse_crtsh_subdomains,
    response_name_values, without_apex, CrtShEntry,
};
use crate::order::{ascending, texts};
use crate::url::{crtsh_apex_query_url, crtsh_query_url, discovery_urls};

verus! {

/// Whatever the text, the domain, the address, the body and the answers are,
/// the functions on them can be called.
pub proof fn every_input_is_accepted(
    text: &str,
    domain: &str,
    body: Vec<u8>,
    entries: Vec<CrtShEntry>,
    fields: Vec<Field>,
    list: Vec<String>,
    options: CtOptions,
    first: Result<Vec<String>, CtError>,
    second: Result<Vec<String>, CtError>,
    e: CtError,
)
    ensures
        call_requires(clean_domain, (domain,)),
        call_requires(crtsh_query_url, (domain,)),
        call_requires(crtsh_apex_query_url, (domain,)),
        call_requires(discovery_urls, (text, domain)),
        call_requires(parse_crtsh_hostnames, (text,)),
        call_requires(parse_crtsh_subdomains, (text, domain)),
        call_requires(entry_hostnames, (&entries,)),
        call_requires(without_apex, (&list, domain)),
        call_requires(name_value, (&fields,)),
        call_requires(read_response, (body, domain)),
        call_requires(combine, (first, second)),
        call_requires(asks_apex, (&first,)),
        call_requires(is_retryable, (&e,)),
        call_requires(Query::new, (domain, &options)),
        call_requires(Discovery::start, (domain, &options)),
{
}

/// A query before the end of its third attempt, and a discovery that has not
/// ended, can be told anything, as long as the body fits into memory.
pub proof fn every_event_is_accepted(q: &mut Query, d: &mut Discovery, event: Event)
    requires
        old(q).attempt <= 2,
        old(q).body@.len() <= old(q).max_response_bytes,
        old(d).query.attempt <= 2,
        old(d).query.body@.len() <= old(d).query.max_response_bytes,
        old(d).stage !is Done,
        event matches Event::Chunk(chunk) ==> old(q).body@.len() + chunk@.len() <= usize::MAX
            && old(d).query.body@.len() + chunk@.len() <= usize::MAX,
    ensures
        call_requires(Query::step, (q, event)),
        call_requires(Discovery::step, (d, event)),
{
}

/// Errors of the outside are told apart by where they come from.
pub proof fn outside_errors_are_told_apart(
    parse: serde_json::Error,
    transport: reqwest::Error,
    r: CtError,
    s: CtError,
)
    requires
        call_ensures(<CtError as From<serde_json::Error>>::from, (parse,), r),
        call_ensures(<CtError as From<reqwest::Error>>::from, (transport,), s),
    ensures
        r == CtError::Parse(parse),
        s == CtError::Transport(transport),
{
}

/// The limits: three attempts, half a second of wait before the first retry,
/// half a minute for a request, and bodies of 32 MiB.
pub proof fn limits_are_known()
    ensures
        CT_MAX_RETRIES == 3,
        CT_RETRY_BACKOFF_MS == 500,
        CT_QUERY_TIMEOUT_SECS == 30,
        CT_RESPONSE_MAX_BYTES == 32 * 1024 * 1024,
        SERVICE_UNAVAILABLE == 503,
{
}

/// By default crt.sh is asked, and bodies of 32 MiB are read.
pub proof fn default_options_are_known(r: CtOptions)
    requires
        call_ensures(<CtOptions as Default>::default, (), r),
    ensures
        r.max_response_bytes == 32 * 1024 * 1024,
        r.base_url@ == "https://crt.sh"@,
{
}

/// Whether an error may pass: a failure of the transport, a status from 500 to
/// 599, or the status 429.
pub open spec fn may_pass(e: CtError) -> bool {
    match e {
        CtError::Parse(_) => false,
        CtError::ResponseTooLarge { limit, got } => false,
        CtError::Transport(_) => true,
        CtError::BadStatus(status) => status == 429 || status / 100 == 5,
    }
}

proof fn lemma_may_pass(e: CtError)
    ensures
        retryable(e) == may_pass(e),
{
}

/// Every failure of the transport, every status from 500 to 599 and the status
/// 429 are worth another attempt. No other error is.
pub proof fn errors_that_may_pass_are_known(e: CtError, r: bool)
    requires
        call_ensures(is_retryable, (&e,), r),
    ensures
        e is Transport ==> r,
        e is Parse || e is ResponseTooLarge ==> !r,
        e matches CtError::BadStatus(status) ==> (r <==> 500 <= status <= 599 || status == 429),
{
}

/// Whether the bytes are a page in place of a response: text that begins with
/// the sign that is smaller.
pub open spec fn is_page(body: Seq<u8>) -> bool {
    body.len() > 0 && body[0] == 0x3c && vstd::utf8::valid_utf8(body)
}

proof fn lemma_page(body: Seq<u8>)
    ensures
        is_markup(body) == is_page(body),
{
    if vstd::utf8::valid_utf8(body) {
        vstd::utf8::decode_utf8_encode_utf8(body);
        crate::json::lemma_first_byte(vstd::utf8::decode_utf8(body));
    }
}

/// Whether the bytes are a response with these name sets in its rows.
pub open spec fn is_readable(body: Seq<u8>, values: Seq<Seq<char>>) -> bool {
    &&& vstd::utf8::valid_utf8(body)
    &&& !is_page(body)
    &&& is_response(vstd::utf8::decode_utf8(body), values)
}

/// Whether the bytes are neither a page nor a response.
pub open spec fn is_unreadable(body: Seq<u8>) -> bool {
    &&& !is_page(body)
    &&& vstd::utf8::valid_utf8(body) ==> forall|values: Seq<Seq<char>>|
        !#[trigger] is_response(vstd::utf8::decode_utf8(body), values)
}

proof fn lemma_outcome(
    r: Result<Vec<String>, CtError>,
    body: Seq<u8>,
    domain: Seq<char>,
    values: Seq<Seq<char>>,
    own: Seq<char>,
)
    requires
        is_outcome_of(r, body, domain),
        is_core(domain, own),
    ensures
        is_page(body) ==> r == Err::<Vec<String>, CtError>(CtError::BadStatus(503)),
        is_readable(body, values) ==> (r matches Ok(list) && ascending(texts(list@))
            && is_subdomain_list(texts(list@), values, domain) && holds_the_other_names(
            texts(list@),
            values,
            own,
        )),
        is_unreadable(body) ==> r matches Err(CtError::Parse(_)),
{
    lemma_page(body);
    if vstd::utf8::valid_utf8(body) {
        let text = vstd::utf8::decode_utf8(body);
        lemma_response(text, values);
        if is_readable(body, values) {
            lemma_subdomain_list(texts(r->Ok_0@), values, domain, own);
        }
        if let Some(v) = response_name_values(text) {
            lemma_response(text, v);
        }
    }
}

/// A page is a service that is unavailable, a response lists its subdomains,
/// and anything else is an error of the parser.
pub proof fn body_is_a_page_a_response_or_an_error(
    body: Vec<u8>,
    domain: &str,
    r: Result<Vec<String>, CtError>,
    values: Seq<Seq<char>>,
    own: Seq<char>,
)
    requires
        call_ensures(read_response, (body, domain), r),
        is_core(domain@, own),
    ensures
        is_page(body@) ==> r == Err::<Vec<String>, CtError>(CtError::BadStatus(503)),
        is_readable(body@, values) ==> (r matches Ok(list) && holds_the_other_names(
            texts(list@),
            values,
            own,
        )),
        is_unreadable(body@) ==> r matches Err(CtError::Parse(_)),
        is_page(body@) || is_unreadable(body@) || exists|v: Seq<Seq<char>>| #[trigger]
            is_readable(body@, v),
{
    lemma_outcome(r, body@, domain@, values, own);
    if !is_page(body@) && !is_unreadable(body@) {
        let v = choose|v: Seq<Seq<char>>| #[trigger]
            is_response(vstd::utf8::decode_utf8(body@), v);
        assert(is_readable(body@, v));
    }
}

/// A query starts before its first attempt, with nothing read, and with the
/// domain and the cap that it was given.
pub proof fn query_starts_afresh(domain: &str, options: CtOptions, r: Query)
    requires
        call_ensures(Query::new, (domain, &options), r),
    ensures
        r.attempt == 0,
        r.body@.len() == 0,
        r.domain@ == domain@,
        r.max_response_bytes == options.max_response_bytes,
{
}

/// The status of a response decides. One of success, from 200 to 299, has the
/// body read. After one from 500 to 599, and after 429, the request is sent
/// again as long as this was not the third attempt: half a second later after
/// the first, a second later after the second. Otherwise the status is the
/// result.
pub proof fn status_decides_about_another_attempt(q: &mut Query, status: u16, r: Action)
    requires
        call_ensures(Query::step, (q, Event::Head(status)), r),
        old(q).attempt <= 2,
    ensures
        r is Read <==> 200 <= status <= 299,
        r is Send <==> old(q).attempt < 2 && (500 <= status <= 599 || status == 429),
        r matches Action::Send { delay_ms } ==> delay_ms == 500 * (old(q).attempt + 1)
            && final(q).attempt == old(q).attempt + 1,
        r matches Action::Finish(result) ==> result == Err::<Vec<String>, CtError>(
            CtError::BadStatus(status),
        ),
        r !is Send ==> final(q).attempt == old(q).attempt,
        final(q).body@.len() == 0,
        final(q).domain@ == old(q).domain@,
        final(q).max_response_bytes == old(q).max_response_bytes,
{
}

/// A failure of the transport, whenever it comes, has the request sent again as
/// long as this was not the third attempt, and is the result then.
pub proof fn transport_failure_has_another_attempt(q: &mut Query, e: reqwest::Error, r: Action)
    requires
        call_ensures(Query::step, (q, Event::Failed(e)), r),
        old(q).attempt <= 2,
    ensures
        old(q).attempt < 2 ==> r == (Action::Send {
            delay_ms: (500 * (old(q).attempt + 1)) as u64,
        }) && final(q).attempt == old(q).attempt + 1,
        old(q).attempt == 2 ==> r == Action::Finish(Err(CtError::Transport(e))),
        final(q).body@.len() == 0,
        final(q).domain@ == old(q).domain@,
        final(q).max_response_bytes == old(q).max_response_bytes,
{
}

/// What comes of a body is held up to the cap. One byte more, and the query is
/// over, with the cap and the size that was reached.
pub proof fn body_is_held_up_to_the_cap(q: &mut Query, chunk: Vec<u8>, r: Action)
    requires
        call_ensures(Query::step, (q, Event::Chunk(chunk)), r),
        old(q).body@.len() + chunk@.len() <= usize::MAX,
    ensures
        old(q).body@.len() + chunk@.len() <= old(q).max_response_bytes ==> r == Action::Read
            && final(q).body@ == old(q).body@ + chunk@,
        old(q).body@.len() + chunk@.len() > old(q).max_response_bytes ==> {
            &&& r matches Action::Finish(Err(CtError::ResponseTooLarge { limit, got }))
            &&& limit == old(q).max_response_bytes
            &&& got == old(q).body@.len() + chunk@.len()
        },
        final(q).attempt == old(q).attempt,
        final(q).domain@ == old(q).domain@,
        final(q).max_response_bytes == old(q).max_response_bytes,
{
}

/// A body that is complete ends the attempt. A page has the request sent again
/// as long as this was not the third attempt; a response is the result; and
/// anything else is an error at once.
pub proof fn complete_body_is_read(
    q: &mut Query,
    r: Action,
    values: Seq<Seq<char>>,
    own: Seq<char>,
)
    requires
        call_ensures(Query::step, (q, Event::End), r),
        old(q).attempt <= 2,
        is_core(old(q).domain@, own),
    ensures
        is_page(old(q).body@) && old(q).attempt < 2 ==> r == (Action::Send {
            delay_ms: (500 * (old(q).attempt + 1)) as u64,
        }) && final(q).attempt == old(q).attempt + 1,
        is_page(old(q).body@) && old(q).attempt == 2 ==> r == Action::Finish(
            Err(CtError::BadStatus(503)),
        ),
        is_readable(old(q).body@, values) ==> (r matches Action::Finish(Ok(list))
            && holds_the_other_names(texts(list@), values, own)),
        is_unreadable(old(q).body@) ==> r matches Action::Finish(Err(CtError::Parse(_))),
        final(q).body@.len() == 0,
        final(q).domain@ == old(q).domain@,
        final(q).max_response_bytes == old(q).max_response_bytes,
{
    let body = old(q).body@;
    lemma_page(body);
    if !is_page(body) {
        lemma_outcome(r->Finish_0, body, old(q).domain@, values, own);
    }
}

/// That an attempt is about to meet an error that may pass is known from what
/// it is told.
pub proof fn passing_failures_are_known_beforehand(q: Query, event: Event, r: bool)
    requires
        call_ensures(Query::meets_transient_failure, (&q, &event), r),
    ensures
        event matches Event::Head(status) ==> (r <==> 500 <= status <= 599 || status == 429),
        event is Chunk ==> !r,
        event is End ==> r == is_page(q.body@),
        event is Failed ==> r,
{
    lemma_page(q.body@);
}

/// The second question is asked unless the first met an error that may not
/// pass.
pub proof fn second_question_follows(first: Result<Vec<String>, CtError>, r: bool)
    requires
        call_ensures(asks_apex, (&first,), r),
    ensures
        first is Ok ==> r,
        first matches Err(e) ==> r == may_pass(e),
{
}

/// Whether `list` is in order and holds the names of the other two.
pub open spec fn holds_both(
    list: Seq<Seq<char>>,
    a: Seq<Seq<char>>,
    b: Seq<Seq<char>>,
) -> bool {
    &&& in_order(list)
    &&& forall|n: Seq<char>| #[trigger] list.contains(n) <==> a.contains(n) || b.contains(n)
}

/// Two answers are put together, each name once and in order. One answer is
/// enough where the other question met an error that may pass. An error that
/// may not is the result, and so is the first of two errors.
pub proof fn answers_are_put_together(
    first: Result<Vec<String>, CtError>,
    second: Result<Vec<String>, CtError>,
    r: Result<Vec<String>, CtError>,
)
    requires
        call_ensures(combine, (first, second), r),
    ensures
        match (first, second) {
            (Ok(a), Ok(b)) => r matches Ok(list) && holds_both(
                texts(list@),
                texts(a@),
                texts(b@),
            ),
            (Ok(a), Err(e)) => if may_pass(e) {
                r matches Ok(list) && holds_both(texts(list@), texts(a@), texts(a@))
            } else {
                r == Err::<Vec<String>, CtError>(e)
            },
            (Err(e), Ok(b)) => if may_pass(e) {
                r matches Ok(list) && holds_both(texts(list@), texts(b@), texts(b@))
            } else {
                r == Err::<Vec<String>, CtError>(e)
            },
            (Err(e), Err(_)) => r == Err::<Vec<String>, CtError>(e),
        },
{
    if let Ok(list) = r {
        lemma_in_order(texts(list@));
        assert forall|n: Seq<char>| !#[trigger] Seq::<Seq<char>>::empty().contains(n) by {}
    }
}

/// A discovery starts with the query for the names under the domain, and asks
/// nothing about a domain without a core.
pub proof fn discovery_starts_with_the_names_under_the_domain(
    domain: &str,
    options: CtOptions,
    r: Option<(Discovery, Step)>,
    host: Seq<char>,
    core: Seq<char>,
)
    requires
        call_ensures(Discovery::start, (domain, &options), r),
        is_host_with_slashes(options.base_url@, host),
        is_core(domain@, core),
    ensures
        r is None <==> core.len() == 0,
        r matches Some((d, step)) ==> {
            &&& d.wildcard_url@ == host + "/?q=%."@ + written(core) + "&output=json"@
            &&& d.apex_url@ == host + "/?q="@ + written(core) + "&output=json"@
            &&& d.stage == Stage::Wildcard
            &&& d.query.attempt == 0
            &&& d.query.body@.len() == 0
            &&& d.query.domain@ == domain@
            &&& d.query.max_response_bytes == options.max_response_bytes
            &&& step matches Step::Send { delay_ms, url } && delay_ms == 0 && url@
                == d.wildcard_url@
        },
{
    lemma_core(domain@, core);
    crate::laws::urls::lemma_written(domain@, core);
    lemma_slashes(options.base_url@, host);
}

/// Whether an attempt of the query ends, with what it is told, in the error
/// `e`.
pub open spec fn fails(q: Query, event: Event, e: CtError) -> bool {
    match event {
        Event::Head(status) => !(200 <= status <= 299) && e == CtError::BadStatus(status),
        Event::Chunk(chunk) => {
            &&& q.body@.len() + chunk@.len() > q.max_response_bytes
            &&& e matches CtError::ResponseTooLarge { limit, got }
            &&& limit == q.max_response_bytes
            &&& got == q.body@.len() + chunk@.len()
        },
        Event::End => {
            ||| is_page(q.body@) && e == CtError::BadStatus(503)
            ||| is_unreadable(q.body@) && e is Parse
        },
        Event::Failed(cause) => e == CtError::Transport(cause),
    }
}

/// Whether the two are the same error; what a parser says does not count.
pub open spec fn same_error(a: CtError, b: CtError) -> bool {
    a == b || (a is Parse && b is Parse)
}

/// Whether nothing is known of the query but its domain and its cap: it is
/// before its first attempt.
pub open spec fn asked_afresh(after: Query, before: Query) -> bool {
    &&& after.attempt == 0
    &&& after.body@.len() == 0
    &&& after.domain@ == before.domain@
    &&& after.max_response_bytes == before.max_response_bytes
}

proof fn lemma_failure(before: Query, event: Event, after: Query, action: Action, e: CtError)
    requires
        follows(before, event, after, action),
        fails(before, event, e),
        before.attempt <= 2,
    ensures
        after.domain@ == before.domain@,
        after.max_response_bytes == before.max_response_bytes,
        after.body@.len() == 0,
        may_pass(e) && before.attempt < 2 ==> {
            &&& action matches Action::Send { delay_ms }
            &&& delay_ms == 500 * (before.attempt + 1)
            &&& after.attempt == before.attempt + 1
        },
        !(may_pass(e) && before.attempt < 2) ==> {
            &&& action matches Action::Finish(Err(x))
            &&& same_error(x, e)
        },
{
    lemma_page(before.body@);
    lemma_may_pass(e);
    if event is End && !is_page(before.body@) {
        let own = crate::domain::clean(before.domain@);
        crate::laws::forms::every_text_has_a_core(before.domain@);
        lemma_outcome(action->Finish_0, before.body@, before.domain@, Seq::empty(), own);
    }
}

/// After an error that may pass, and before its third attempt, a discovery
/// sends the same request once more, after half a second or a second, and
/// forgets nothing but the body.
pub proof fn discovery_sends_the_request_again(
    d: &mut Discovery,
    event: Event,
    e: CtError,
    r: Step,
)
    requires
        call_ensures(Discovery::step, (d, event), r),
        old(d).query.attempt < 2,
        fails(old(d).query, event, e),
        may_pass(e),
    ensures
        r matches Step::Send { delay_ms, url } && delay_ms == 500 * (old(d).query.attempt + 1)
            && url@ == (if old(d).stage is Apex {
            old(d).apex_url@
        } else {
            old(d).wildcard_url@
        }),
        final(d).stage == old(d).stage,
        final(d).wildcard_url@ == old(d).wildcard_url@,
        final(d).apex_url@ == old(d).apex_url@,
        final(d).query.attempt == old(d).query.attempt + 1,
        final(d).query.body@.len() == 0,
        final(d).query.domain@ == old(d).query.domain@,
        final(d).query.max_response_bytes == old(d).query.max_response_bytes,
{
    let before = *old(d);
    let (q, action) = choose|q: Query, action: Action| #[trigger]
        follows(before.query, event, q, action) && advances(before, q, action, *final(d), r);
    lemma_failure(before.query, event, q, action, e);
}

/// A discovery reads on after a status from 200 to 299, and as long as the body
/// stays within the cap, and holds what it read.
pub proof fn discovery_reads_on(d: &mut Discovery, event: Event, r: Step)
    requires
        call_ensures(Discovery::step, (d, event), r),
        match event {
            Event::Head(status) => 200 <= status <= 299,
            Event::Chunk(chunk) => old(d).query.body@.len() + chunk@.len() <= old(
                d,
            ).query.max_response_bytes,
            _ => false,
        },
    ensures
        r == Step::Read,
        final(d).stage == old(d).stage,
        final(d).wildcard_url@ == old(d).wildcard_url@,
        final(d).apex_url@ == old(d).apex_url@,
        event is Head ==> final(d).query.body@.len() == 0,
        event matches Event::Chunk(chunk) ==> final(d).query.body@ == old(d).query.body@ + chunk@,
        final(d).query.attempt == old(d).query.attempt,
        final(d).query.domain@ == old(d).query.domain@,
        final(d).query.max_response_bytes == old(d).query.max_response_bytes,
{
}

/// The first question of a discovery ends with a response, whose subdomains
/// are kept, or with an error. Unless that is one that may not pass, which is
/// the result, the second question is asked, at once and afresh.
pub proof fn first_question_leads_to_the_second(
    d: &mut Discovery,
    event: Event,
    e: CtError,
    values: Seq<Seq<char>>,
    own: Seq<char>,
    r: Step,
)
    requires
        call_ensures(Discovery::step, (d, event), r),
        old(d).stage == Stage::Wildcard,
        old(d).query.attempt <= 2,
        is_core(old(d).query.domain@, own),
    ensures
        event is End && is_readable(old(d).query.body@, values) ==> {
            &&& final(d).stage matches Stage::Apex(Ok(list))
            &&& holds_the_other_names(texts(list@), values, own)
            &&& asked_afresh(final(d).query, old(d).query)
            &&& r matches Step::Send { delay_ms, url } && delay_ms == 0 && url@ == old(d).apex_url@
        },
        fails(old(d).query, event, e) && may_pass(e) && old(d).query.attempt == 2 ==> {
            &&& final(d).stage == Stage::Apex(Err(e))
            &&& asked_afresh(final(d).query, old(d).query)
            &&& r matches Step::Send { delay_ms, url } && delay_ms == 0 && url@ == old(d).apex_url@
        },
        fails(old(d).query, event, e) && !may_pass(e) ==> {
            &&& final(d).stage == Stage::Done
            &&& r matches Step::Finish(Err(x)) && same_error(x, e)
        },
        final(d).wildcard_url@ == old(d).wildcard_url@,
        final(d).apex_url@ == old(d).apex_url@,
{
    let before = *old(d);
    let (q, action) = choose|q: Query, action: Action| #[trigger]
        follows(before.query, event, q, action) && advances(before, q, action, *final(d), r);
    if fails(before.query, event, e) {
        lemma_failure(before.query, event, q, action, e);
        lemma_may_pass(e);
        if let Action::Finish(Err(x)) = action {
            lemma_may_pass(x);
        }
    }
    if event is End && is_readable(before.query.body@, values) {
        lemma_page(before.query.body@);
        lemma_outcome(action->Finish_0, before.query.body@, before.query.domain@, values, own);
    }
}

/// The second question of a discovery, where the first has an answer: the
/// names of a response are added to those of the answer, each name once and in
/// order. After an error that may pass, and no attempt left, the answer is the
/// result as it is; any other error is the result itself.
pub proof fn second_question_adds_to_the_answer(
    d: &mut Discovery,
    w: Vec<String>,
    event: Event,
    e: CtError,
    w_values: Seq<Seq<char>>,
    values: Seq<Seq<char>>,
    own: Seq<char>,
    r: Step,
)
    requires
        call_ensures(Discovery::step, (d, event), r),
        old(d).stage == Stage::Apex(Ok(w)),
        old(d).query.attempt <= 2,
        is_core(old(d).query.domain@, own),
        holds_the_other_names(texts(w@), w_values, own),
    ensures
        event is End && is_readable(old(d).query.body@, values) ==> {
            &&& r matches Step::Finish(Ok(list))
            &&& holds_the_other_names(texts(list@), w_values + values, own)
        },
        fails(old(d).query, event, e) && may_pass(e) && old(d).query.attempt == 2 ==> {
            &&& r matches Step::Finish(Ok(list))
            &&& texts(list@) == texts(w@)
        },
        fails(old(d).query, event, e) && !may_pass(e) ==> {
            &&& r matches Step::Finish(Err(x))
            &&& same_error(x, e)
        },
        r is Finish ==> final(d).stage == Stage::Done,
{
    let before = *old(d);
    let (q, action) = choose|q: Query, action: Action| #[trigger]
        follows(before.query, event, q, action) && advances(before, q, action, *final(d), r);
    if fails(before.query, event, e) {
        lemma_failure(before.query, event, q, action, e);
        lemma_may_pass(e);
        if let Action::Finish(Err(x)) = action {
            lemma_may_pass(x);
            if may_pass(e) {
                let list = r->Finish_0->Ok_0;
                lemma_ascending(texts(w@));
                crate::laws::lone_answer_is_unchanged(texts(list@), texts(w@));
            }
        }
    }
    if event is End && is_readable(before.query.body@, values) {
        lemma_page(before.query.body@);
        lemma_outcome(action->Finish_0, before.query.body@, before.query.domain@, values, own);
        let a = action->Finish_0->Ok_0;
        let list = r->Finish_0->Ok_0;
        lemma_union(texts(list@), texts(w@), texts(a@), w_values, values, own);
    }
}

/// The second question of a discovery, where the first met an error that may
/// pass: the subdomains of a response are the result, and otherwise that first
/// error is.
pub proof fn second_question_stands_in_for_the_first(
    d: &mut Discovery,
    first: CtError,
    event: Event,
    e: CtError,
    values: Seq<Seq<char>>,
    own: Seq<char>,
    r: Step,
)
    requires
        call_ensures(Discovery::step, (d, event), r),
        old(d).stage == Stage::Apex(Err(first)),
        may_pass(first),
        old(d).query.attempt <= 2,
        is_core(old(d).query.domain@, own),
    ensures
        event is End && is_readable(old(d).query.body@, values) ==> {
            &&& r matches Step::Finish(Ok(list))
            &&& holds_the_other_names(texts(list@), values, own)
        },
        fails(old(d).query, event, e) && !(may_pass(e) && old(d).query.attempt < 2) ==> r
            == Step::Finish(Err(first)),
        r is Finish ==> final(d).stage == Stage::Done,
{
    let before = *old(d);
    let (q, action) = choose|q: Query, action: Action| #[trigger]
        follows(before.query, event, q, action) && advances(before, q, action, *final(d), r);
    lemma_may_pass(first);
    if fails(before.query, event, e) {
        lemma_failure(before.query, event, q, action, e);
    }
    if event is End && is_readable(before.query.body@, values) {
        lemma_page(before.query.body@);
        lemma_outcome(action->Finish_0, before.query.body@, before.query.domain@, values, own);
        let a = action->Finish_0->Ok_0;
        let list = r->Finish_0->Ok_0;
        crate::laws::lone_answer_is_unchanged(texts(list@), texts(a@));
    }
}

proof fn lemma_union(
    list: Seq<Seq<char>>,
    a: Seq<Seq<char>>,
    b: Seq<Seq<char>>,
    a_values: Seq<Seq<char>>,
    b_values: Seq<Seq<char>>,
    own: Seq<char>,
)
    requires
        is_union(list, a, b),
        holds_the_other_names(a, a_values, own),
        holds_the_other_names(b, b_values, own),
    ensures
        holds_the_other_names(list, a_values + b_values, own),
{
    lemma_in_order(list);
    let both = a_values + b_values;
    assert forall|n: Seq<char>| #[trigger] list.contains(n) <==> may_be_listed(n) && named_in(
        both,
        n,
    ) && !crate::laws::forms::is_lowered(own, n) by {
        assert(a.contains(n) || !a.contains(n));
        assert(b.contains(n) || !b.contains(n));
        if named_in(both, n) {
            let (i, raw) = choose|i: int, raw: Seq<char>|
                0 <= i < both.len() && #[trigger] names(both[i], raw)
                    && crate::laws::forms::is_lowered(raw, n);
            if i < a_values.len() {
                assert(names(a_values[i], raw));
            } else {
                assert(names(b_values[i - a_values.len()], raw));
            }
        }
        if named_in(a_values, n) {
            let (i, raw) = choose|i: int, raw: Seq<char>|
                0 <= i < a_values.len() && #[trigger] names(a_values[i], raw)
                    && crate::laws::forms::is_lowered(raw, n);
            assert(names(both[i], raw));
        }
        if named_in(b_values, n) {
            let (i, raw) = choose|i: int, raw: Seq<char>|
                0 <= i < b_values.len() && #[trigger] names(b_values[i], raw)
                    && crate::laws::forms::is_lowered(raw, n);
            assert(names(both[a_values.len() + i], raw));
        }
    }
}

} // verus!
