//! How a domain is asked for: attempts, responses, and what is made of them.
//!
//! Nothing here talks to the network. A [`Query`] is told what happened and
//! says what to do next.

use vstd::prelude::*;

use crate::domain::clean;
use crate::error::CtError;
use crate::json::{json_error, lemma_first_byte};
use crate::names::{is_subdomain_list, parse_crtsh_subdomains, response_name_values};
use crate::order::{ascending, sort_and_dedup, texts};
use crate::text::trim_end_char;
use crate::url::{apex_url, discovery_urls, wildcard_url};

verus! {

/// The time limit of one request, in seconds. crt.sh routinely takes 10 to 20
/// seconds and now and then hangs.
pub const CT_QUERY_TIMEOUT_SECS: u64 = 30;

/// The cap on the size of a response body: 32 MiB. That of a busy domain is a
/// few MB.
pub const CT_RESPONSE_MAX_BYTES: usize = 33_554_432;

/// How many attempts a query gets.
pub const CT_MAX_RETRIES: u32 = 3;

/// The wait before the first retry, in milliseconds. It grows linearly with
/// the attempt.
pub const CT_RETRY_BACKOFF_MS: u64 = 500;

/// The status for a service that is unavailable.
pub const SERVICE_UNAVAILABLE: u16 = 503;

/// Options of the fetch layer.
#[derive(Debug)]
pub struct CtOptions {
    /// The cap on the size of a response body, in bytes.
    pub max_response_bytes: usize,
    /// The base URL that queries go to.
    pub base_url: String,
}

impl Default for CtOptions {
    fn default() -> (r: CtOptions)
        ensures
            r.max_response_bytes == CT_RESPONSE_MAX_BYTES,
            r.base_url@ == "https://crt.sh"@,
    {
        CtOptions {
            max_response_bytes: CT_RESPONSE_MAX_BYTES,
            base_url: "https://crt.sh".to_owned(),
        }
    }
}

impl Clone for CtOptions {
    fn clone(&self) -> (r: CtOptions)
        ensures
            r == *self,
    {
        CtOptions {
            max_response_bytes: self.max_response_bytes,
            base_url: self.base_url.clone(),
        }
    }
}

/// The error of `String::from_utf8`.
#[verifier::external_type_specification]
#[verifier::external_body]
pub struct ExFromUtf8Error(std::string::FromUtf8Error);

/// `String::from_utf8` gives the text of which the bytes are the UTF-8
/// encoding, and fails where there is none.
pub assume_specification[ String::from_utf8 ](bytes: Vec<u8>) -> (r: Result<
    String,
    std::string::FromUtf8Error,
>)
    ensures
        r is Ok <==> vstd::utf8::valid_utf8(bytes@),
        r matches Ok(text) ==> text@ == vstd::utf8::decode_utf8(bytes@),
;

/// Whether another attempt may mend the error: the request never got through,
/// the server failed, or it asks for a pause.
pub open spec fn retryable(e: CtError) -> bool {
    match e {
        CtError::Transport(_) => true,
        CtError::BadStatus(status) => 500 <= status <= 599 || status == 429,
        _ => false,
    }
}

/// Whether another attempt may mend the error.
pub fn is_retryable(e: &CtError) -> (r: bool)
    ensures
        r == retryable(*e),
{
    match e {
        CtError::Transport(_) => true,
        CtError::BadStatus(status) => (500 <= *status && *status <= 599) || *status == 429,
        _ => false,
    }
}

/// Whether the bytes of a body are a page in HTML, as gateways send it, and
/// not JSON.
pub open spec fn is_markup(body: Seq<u8>) -> bool {
    vstd::utf8::valid_utf8(body) && vstd::utf8::decode_utf8(body).len() > 0
        && vstd::utf8::decode_utf8(body)[0] == '<'
}

/// Whether `r` is what the body of a response to a query about `domain`
/// amounts to.
pub open spec fn is_outcome_of(
    r: Result<Vec<String>, CtError>,
    body: Seq<u8>,
    domain: Seq<char>,
) -> bool {
    if !vstd::utf8::valid_utf8(body) {
        r matches Err(CtError::Parse(_))
    } else if is_markup(body) {
        r == Err::<Vec<String>, CtError>(CtError::BadStatus(SERVICE_UNAVAILABLE))
    } else {
        match response_name_values(vstd::utf8::decode_utf8(body)) {
            Some(values) => r matches Ok(names) && is_subdomain_list(
                texts(names@),
                values,
                domain,
            ),
            None => r matches Err(CtError::Parse(_)),
        }
    }
}

/// The subdomains of `domain` that the body of a response lists.
///
/// Bytes that are not UTF-8 are an error, never replaced: a replacement could
/// make up a host name. A page in HTML is the word of a gateway that the
/// service is unavailable.
pub fn read_response(body: Vec<u8>, domain: &str) -> (r: Result<Vec<String>, CtError>)
    ensures
        is_outcome_of(r, body@, domain@),
{
    match String::from_utf8(body) {
        Ok(text) => {
            let first = text.as_str().chars().next();
            if first == Some('<') {
                Err(CtError::BadStatus(SERVICE_UNAVAILABLE))
            } else {
                parse_crtsh_subdomains(text.as_str(), domain)
            }
        },
        Err(e) => {
            let mut message = "CT response contained invalid UTF-8: ".to_owned();
            message.append(e.to_string().as_str());
            Err(CtError::Parse(json_error(message.as_str())))
        },
    }
}

/// What a query is told.
#[derive(Debug)]
pub enum Event {
    /// A response began, with this status.
    Head(u16),
    /// These bytes of its body came next.
    Chunk(Vec<u8>),
    /// Its body is complete.
    End,
    /// The request failed, before the response or within it.
    Failed(reqwest::Error),
}

/// What a query wants done next.
#[derive(Debug)]
pub enum Action {
    /// Wait for `delay_ms` milliseconds, then send the request.
    Send {
        /// The time to wait.
        delay_ms: u64,
    },
    /// Read on in the body of the response.
    Read,
    /// Nothing: this is the result.
    Finish(Result<Vec<String>, CtError>),
}

/// A query about a domain: one URL, asked in up to [`CT_MAX_RETRIES`] attempts.
#[derive(Debug)]
pub struct Query {
    /// The domain that the query is about.
    pub domain: String,
    /// The cap on the size of a response body, in bytes.
    pub max_response_bytes: usize,
    /// How many attempts were made before this one.
    pub attempt: u32,
    /// What came of the body of the response to this one.
    pub body: Vec<u8>,
}

/// Whether `action` and the query `after` follow from the `outcome` of an
/// attempt of the query `before`: another attempt where that may mend the
/// error and one is left, with a wait in proportion to the attempts made, and
/// the outcome as the result otherwise.
pub open spec fn settles(
    before: Query,
    outcome: Result<Vec<String>, CtError>,
    after: Query,
    action: Action,
) -> bool {
    &&& after.domain == before.domain
    &&& after.max_response_bytes == before.max_response_bytes
    &&& after.body@.len() == 0
    &&& if outcome is Err && retryable(outcome->Err_0) && before.attempt + 1 < CT_MAX_RETRIES {
        &&& after.attempt == before.attempt + 1
        &&& action matches Action::Send { delay_ms } && delay_ms == CT_RETRY_BACKOFF_MS * (
        before.attempt + 1)
    } else {
        &&& after.attempt == before.attempt
        &&& action == Action::Finish(outcome)
    }
}

/// Whether `action` and the query `after` follow from what the query `before`
/// was told.
pub open spec fn follows(before: Query, event: Event, after: Query, action: Action) -> bool {
    match event {
        Event::Head(status) => if 200 <= status <= 299 {
            &&& after.domain == before.domain
            &&& after.max_response_bytes == before.max_response_bytes
            &&& after.attempt == before.attempt
            &&& after.body@.len() == 0
            &&& action == Action::Read
        } else {
            settles(before, Err(CtError::BadStatus(status)), after, action)
        },
        Event::Chunk(chunk) => {
            let size = before.body@.len() + chunk@.len();
            if size > before.max_response_bytes {
                settles(
                    before,
                    Err(
                        CtError::ResponseTooLarge {
                            limit: before.max_response_bytes,
                            got: size as usize,
                        },
                    ),
                    after,
                    action,
                )
            } else {
                &&& after.domain == before.domain
                &&& after.max_response_bytes == before.max_response_bytes
                &&& after.attempt == before.attempt
                &&& after.body@ == before.body@ + chunk@
                &&& action == Action::Read
            }
        },
        Event::End => if is_markup(before.body@) {
            settles(before, Err(CtError::BadStatus(SERVICE_UNAVAILABLE)), after, action)
        } else {
            &&& action matches Action::Finish(outcome) && is_outcome_of(
                outcome,
                before.body@,
                before.domain@,
            )
            &&& settles(before, action->Finish_0, after, action)
        },
        Event::Failed(e) => settles(before, Err(CtError::Transport(e)), after, action),
    }
}

/// Whether an attempt of the query `q` ends, with what it is told, in an error
/// that another attempt may mend.
pub open spec fn is_transient_failure(q: Query, event: Event) -> bool {
    match event {
        Event::Head(status) => !(200 <= status <= 299) && retryable(CtError::BadStatus(status)),
        Event::Chunk(_) => false,
        Event::End => is_markup(q.body@),
        Event::Failed(_) => true,
    }
}

impl Query {
    /// Whether an attempt is left to make or under way, and no more is held of
    /// a body than the cap allows.
    pub open spec fn well_formed(self) -> bool {
        &&& self.attempt < CT_MAX_RETRIES
        &&& self.body@.len() <= self.max_response_bytes
    }

    /// A query about `domain` before its first attempt.
    pub fn new(domain: &str, options: &CtOptions) -> (r: Query)
        ensures
            r.well_formed(),
            r.domain@ == domain@,
            r.max_response_bytes == options.max_response_bytes,
            r.attempt == 0,
            r.body@.len() == 0,
    {
        Query {
            domain: domain.to_owned(),
            max_response_bytes: options.max_response_bytes,
            attempt: 0,
            body: Vec::new(),
        }
    }

    /// Whether the body so far is a page in HTML.
    fn holds_markup(&self) -> (r: bool)
        ensures
            r == is_markup(self.body@),
    {
        proof {
            if vstd::utf8::valid_utf8(self.body@) {
                vstd::utf8::decode_utf8_encode_utf8(self.body@);
                lemma_first_byte(vstd::utf8::decode_utf8(self.body@));
            }
        }
        if self.body.len() == 0 || self.body[0] != 0x3c {
            return false;
        }
        String::from_utf8(self.body.clone()).is_ok()
    }

    /// Whether the attempt under way ends, with what it is about to be told, in
    /// an error that another attempt may mend.
    pub fn meets_transient_failure(&self, event: &Event) -> (r: bool)
        ensures
            r == is_transient_failure(*self, *event),
    {
        match event {
            Event::Head(status) => !(200 <= *status && *status <= 299) && is_retryable(
                &CtError::BadStatus(*status),
            ),
            Event::Chunk(_) => false,
            Event::End => self.holds_markup(),
            Event::Failed(_) => true,
        }
    }

    /// Ends an attempt with this outcome.
    fn settle(&mut self, outcome: Result<Vec<String>, CtError>) -> (action: Action)
        requires
            old(self).well_formed(),
        ensures
            final(self).well_formed(),
            settles(*old(self), outcome, *final(self), action),
    {
        self.body = Vec::new();
        let again = match &outcome {
            Ok(_) => false,
            Err(e) => is_retryable(e),
        };
        if again && self.attempt + 1 < CT_MAX_RETRIES {
            self.attempt = self.attempt + 1;
            Action::Send { delay_ms: CT_RETRY_BACKOFF_MS * (self.attempt as u64) }
        } else {
            Action::Finish(outcome)
        }
    }

    /// What to do next, given what happened.
    ///
    /// A status that is not one of success ends the attempt, and so does a
    /// body that goes over the cap, without a byte of it beyond the cap being
    /// held. A body that is complete is read, see [`read_response`].
    pub fn step(&mut self, event: Event) -> (action: Action)
        requires
            old(self).well_formed(),
            event matches Event::Chunk(chunk) ==> old(self).body@.len() + chunk@.len()
                <= usize::MAX,
        ensures
            final(self).well_formed(),
            follows(*old(self), event, *final(self), action),
    {
        match event {
            Event::Head(status) => {
                if 200 <= status && status <= 299 {
                    self.body = Vec::new();
                    Action::Read
                } else {
                    self.settle(Err(CtError::BadStatus(status)))
                }
            },
            Event::Chunk(mut chunk) => {
                let size: usize = self.body.len() + chunk.len();
                if size > self.max_response_bytes {
                    let limit: usize = self.max_response_bytes;
                    self.settle(Err(CtError::ResponseTooLarge { limit, got: size }))
                } else {
                    self.body.append(&mut chunk);
                    Action::Read
                }
            },
            Event::End => {
                let mut body: Vec<u8> = Vec::new();
                body.append(&mut self.body);
                let outcome = read_response(body, self.domain.as_str());
                self.settle(outcome)
            },
            Event::Failed(e) => self.settle(Err(CtError::Transport(e))),
        }
    }
}

/// Whether a discovery goes on to ask for the certificates of the domain
/// itself, given what came of the question for the names under it: not where
/// that met an error that ends the discovery.
pub fn asks_apex(wildcard: &Result<Vec<String>, CtError>) -> (r: bool)
    ensures
        r == (wildcard is Ok || retryable(wildcard->Err_0)),
{
    match wildcard {
        Ok(_) => true,
        Err(e) => is_retryable(e),
    }
}

/// Whether `list` holds the names of both lists: all of them, nothing else, in
/// order and each once.
pub open spec fn is_union(
    list: Seq<Seq<char>>,
    a: Seq<Seq<char>>,
    b: Seq<Seq<char>>,
) -> bool {
    &&& ascending(list)
    &&& forall|n: Seq<char>| list.contains(n) <==> a.contains(n) || b.contains(n)
}

/// Whether `r` is what a discovery found, given what came of its two
/// questions.
pub open spec fn is_combination(
    r: Result<Vec<String>, CtError>,
    wildcard: Result<Vec<String>, CtError>,
    apex: Result<Vec<String>, CtError>,
) -> bool {
    match (wildcard, apex) {
        (Ok(a), Ok(b)) => r matches Ok(names) && is_union(texts(names@), texts(a@), texts(b@)),
        (Ok(a), Err(e)) => if retryable(e) {
            r matches Ok(names) && is_union(texts(names@), texts(a@), Seq::empty())
        } else {
            r == Err::<Vec<String>, CtError>(e)
        },
        (Err(e), Ok(b)) => if retryable(e) {
            r matches Ok(names) && is_union(texts(names@), Seq::empty(), texts(b@))
        } else {
            r == Err::<Vec<String>, CtError>(e)
        },
        (Err(e), Err(_)) => r == Err::<Vec<String>, CtError>(e),
    }
}

/// What a discovery found, given what came of its two questions.
///
/// Where one of them has an answer and the other met an error that another
/// attempt might have mended, the answer is the result. An error of any other
/// kind is the result itself, and so is the first of two errors.
pub fn combine(
    wildcard: Result<Vec<String>, CtError>,
    apex: Result<Vec<String>, CtError>,
) -> (r: Result<Vec<String>, CtError>)
    ensures
        is_combination(r, wildcard, apex),
{
    match wildcard {
        Ok(a) => match apex {
            Ok(b) => {
                let ghost (first, second) = (a@, b@);
                let mut names = a;
                let mut more = b;
                names.append(&mut more);
                assert forall|n: Seq<char>|
                    texts(names@).contains(n) <==> texts(first).contains(n) || texts(
                        second,
                    ).contains(n) by {
                    crate::names::lemma_texts_append(first, second, n);
                }
                Ok(sort_and_dedup(&names))
            },
            Err(e) => if is_retryable(&e) {
                Ok(sort_and_dedup(&a))
            } else {
                Err(e)
            },
        },
        Err(e) => match apex {
            Ok(b) => if is_retryable(&e) {
                Ok(sort_and_dedup(&b))
            } else {
                Err(e)
            },
            Err(_) => Err(e),
        },
    }
}

/// How far a discovery has come.
#[derive(Debug)]
pub enum Stage {
    /// It asks for the names under the domain.
    Wildcard,
    /// It asks for the certificates of the domain itself; this came of the
    /// question before.
    Apex(Result<Vec<String>, CtError>),
    /// It has its result.
    Done,
}

/// What a discovery wants done next.
#[derive(Debug)]
pub enum Step {
    /// Wait for `delay_ms` milliseconds, then request `url`.
    Send {
        /// The time to wait.
        delay_ms: u64,
        /// What to request.
        url: String,
    },
    /// Read on in the body of the response.
    Read,
    /// Nothing: this is the result.
    Finish(Result<Vec<String>, CtError>),
}

/// A discovery of the subdomains of a domain: two queries, one after the other.
#[derive(Debug)]
pub struct Discovery {
    /// The URL for the names under the domain.
    pub wildcard_url: String,
    /// The URL for the certificates of the domain itself.
    pub apex_url: String,
    /// How far the discovery has come.
    pub stage: Stage,
    /// The query that is under way.
    pub query: Query,
}

/// Whether the query `q` is `before` as it was before its first attempt.
pub open spec fn is_restart(q: Query, before: Query) -> bool {
    &&& q.domain@ == before.domain@
    &&& q.max_response_bytes == before.max_response_bytes
    &&& q.attempt == 0
    &&& q.body@.len() == 0
}

/// Whether `step` and the discovery `after` follow from the discovery `before`
/// once its query has become `q` and wants `action` done.
pub open spec fn advances(
    before: Discovery,
    q: Query,
    action: Action,
    after: Discovery,
    step: Step,
) -> bool {
    &&& after.wildcard_url == before.wildcard_url
    &&& after.apex_url == before.apex_url
    &&& match action {
        Action::Send { delay_ms } => {
            &&& after.stage == before.stage
            &&& after.query == q
            &&& step matches Step::Send { delay_ms: delay, url } && delay == delay_ms && url@
                == before.current_url()
        },
        Action::Read => {
            &&& after.stage == before.stage
            &&& after.query == q
            &&& step == Step::Read
        },
        Action::Finish(outcome) => match before.stage {
            Stage::Apex(wildcard) => {
                &&& after.stage == Stage::Done
                &&& step matches Step::Finish(r) && is_combination(r, wildcard, outcome)
            },
            _ => if outcome is Ok || retryable(outcome->Err_0) {
                &&& after.stage == Stage::Apex(outcome)
                &&& is_restart(after.query, before.query)
                &&& step matches Step::Send { delay_ms, url } && delay_ms == 0 && url@
                    == before.apex_url@
            } else {
                &&& after.stage == Stage::Done
                &&& step == Step::Finish(outcome)
            },
        },
    }
}

/// Whether `step` and the discovery `after` follow from what the discovery
/// `before` was told.
pub open spec fn proceeds(before: Discovery, event: Event, after: Discovery, step: Step) -> bool {
    exists|q: Query, action: Action| #[trigger]
        follows(before.query, event, q, action) && advances(before, q, action, after, step)
}

impl Discovery {
    /// Whether the query under way is well-formed.
    pub open spec fn well_formed(self) -> bool {
        self.query.well_formed()
    }

    /// The URL that the query under way is about.
    pub open spec fn current_url(self) -> Seq<char> {
        if self.stage is Apex {
            self.apex_url@
        } else {
            self.wildcard_url@
        }
    }

    /// A discovery of the subdomains of `domain`, and the first thing to do.
    /// There is none where nothing is left of the domain once it is clean.
    pub fn start(domain: &str, options: &CtOptions) -> (r: Option<(Discovery, Step)>)
        ensures
            r is None <==> clean(domain@).len() == 0,
            r matches Some((discovery, step)) ==> {
                &&& discovery.well_formed()
                &&& discovery.stage == Stage::Wildcard
                &&& discovery.wildcard_url@ == wildcard_url(
                    trim_end_char(options.base_url@, '/'),
                    domain@,
                )
                &&& discovery.apex_url@ == apex_url(
                    trim_end_char(options.base_url@, '/'),
                    domain@,
                )
                &&& discovery.query.domain@ == domain@
                &&& discovery.query.max_response_bytes == options.max_response_bytes
                &&& discovery.query.attempt == 0
                &&& discovery.query.body@.len() == 0
                &&& step matches Step::Send { delay_ms, url } && delay_ms == 0 && url@
                    == discovery.wildcard_url@
            },
    {
        match discovery_urls(options.base_url.as_str(), domain) {
            None => None,
            Some((wildcard_url, apex_url)) => {
                let url = wildcard_url.clone();
                let query = Query::new(domain, options);
                let discovery = Discovery { wildcard_url, apex_url, stage: Stage::Wildcard, query };
                Some((discovery, Step::Send { delay_ms: 0, url }))
            },
        }
    }

    /// What to do next, given what happened.
    pub fn step(&mut self, event: Event) -> (step: Step)
        requires
            old(self).well_formed(),
            old(self).stage !is Done,
            event matches Event::Chunk(chunk) ==> old(self).query.body@.len() + chunk@.len()
                <= usize::MAX,
        ensures
            final(self).well_formed(),
            proceeds(*old(self), event, *final(self), step),
    {
        let action = self.query.step(event);
        let ghost q = self.query;
        assert(follows(old(self).query, event, q, action));
        match action {
            Action::Send { delay_ms } => {
                let url = match &self.stage {
                    Stage::Apex(_) => self.apex_url.clone(),
                    _ => self.wildcard_url.clone(),
                };
                Step::Send { delay_ms, url }
            },
            Action::Read => Step::Read,
            Action::Finish(outcome) => {
                let mut stage = Stage::Done;
                std::mem::swap(&mut stage, &mut self.stage);
                match stage {
                    Stage::Apex(wildcard) => Step::Finish(combine(wildcard, outcome)),
                    _ => {
                        if asks_apex(&outcome) {
                            let max_response_bytes: usize = self.query.max_response_bytes;
                            self.query = Query {
                                domain: self.query.domain.clone(),
                                max_response_bytes,
                                attempt: 0,
                                body: Vec::new(),
                            };
                            self.stage = Stage::Apex(outcome);
                            Step::Send { delay_ms: 0, url: self.apex_url.clone() }
                        } else {
                            Step::Finish(outcome)
                        }
                    },
                }
            },
        }
    }
}

} // verus!
