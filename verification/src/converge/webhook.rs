//! Requests that come in by webhook, and whether to believe them.
use vstd::prelude::*;
use crate::converge::backend_error::BackendError;
use crate::json;
use crate::json::{Json, JsonV};
use crate::ordmap::{map_vals, put, StrMap};
use crate::text;
use crate::text::ascii_lower;

verus! {

/// Who sends the requests.
#[derive(Clone, Copy, Debug, PartialEq, Eq, Structural)]
pub enum WebhookKind {
    Generic,
    GenericHmac,
    GenericOidc,
    HeaderToken,
    Github,
    Gitlab,
    Bitbucket,
    Harbor,
    DockerHub,
    Quay,
    Nexus,
    Gcr,
    Acr,
    Cdevents,
}

/// The name of a sender.
pub open spec fn webhook_name(k: WebhookKind) -> Seq<char> {
    match k {
        WebhookKind::Generic => "generic"@,
        WebhookKind::GenericHmac => "generic-hmac"@,
        WebhookKind::GenericOidc => "generic-oidc"@,
        WebhookKind::HeaderToken => "header-token"@,
        WebhookKind::Github => "github"@,
        WebhookKind::Gitlab => "gitlab"@,
        WebhookKind::Bitbucket => "bitbucket"@,
        WebhookKind::Harbor => "harbor"@,
        WebhookKind::DockerHub => "dockerhub"@,
        WebhookKind::Quay => "quay"@,
        WebhookKind::Nexus => "nexus"@,
        WebhookKind::Gcr => "gcr"@,
        WebhookKind::Acr => "acr"@,
        WebhookKind::Cdevents => "cdevents"@,
    }
}

impl WebhookKind {
    /// The name of the sender.
    pub fn name(self) -> (r: &'static str)
        ensures
            r@ == webhook_name(self),
    {
        match self {
            WebhookKind::Generic => "generic",
            WebhookKind::GenericHmac => "generic-hmac",
            WebhookKind::GenericOidc => "generic-oidc",
            WebhookKind::HeaderToken => "header-token",
            WebhookKind::Github => "github",
            WebhookKind::Gitlab => "gitlab",
            WebhookKind::Bitbucket => "bitbucket",
            WebhookKind::Harbor => "harbor",
            WebhookKind::DockerHub => "dockerhub",
            WebhookKind::Quay => "quay",
            WebhookKind::Nexus => "nexus",
            WebhookKind::Gcr => "gcr",
            WebhookKind::Acr => "acr",
            WebhookKind::Cdevents => "cdevents",
        }
    }
}

/// Headers by name.
pub type Headers = Seq<(Seq<char>, Seq<char>)>;

/// What headers hold.
pub open spec fn headers_view(m: Seq<(Seq<char>, String)>) -> Headers {
    map_vals(m, |v: String| v@)
}

/// A copy of headers.
fn copy_headers(m: &StrMap<String>) -> (r: StrMap<String>)
    ensures
        headers_view(r@) == headers_view(m@),
{
    let mut out: Vec<(String, String)> = Vec::new();
    let mut i: usize = 0;
    while i < m.entries.len()
        invariant
            i <= m.entries@.len(),
            out@.len() == i,
            forall|j: int|
                0 <= j < i ==> (#[trigger] out@[j]).0@ == m.entries@[j].0@ && out@[j].1@
                    == m.entries@[j].1@,
        decreases m.entries.len() - i,
    {
        out.push((m.entries[i].0.clone(), m.entries[i].1.clone()));
        i += 1;
    }
    let r = StrMap { entries: out };
    proof {
        assert(headers_view(r@) =~= headers_view(m@));
    }
    r
}

/// A request.
#[derive(Clone, Debug, PartialEq, Eq)]
pub struct WebhookRequest {
    pub method: String,
    pub path: String,
    pub headers: StrMap<String>,
    pub body: Vec<u8>,
}

/// The value of the first header whose name is this one but for the case of
/// ASCII letters.
pub open spec fn header_value(hs: Headers, name: Seq<char>) -> Option<Seq<char>>
    decreases hs.len(),
{
    if hs.len() == 0 {
        None
    } else if ascii_lower(hs[0].0) == ascii_lower(name) {
        Some(hs[0].1)
    } else {
        header_value(hs.drop_first(), name)
    }
}

impl WebhookRequest {
    /// A request without headers and body.
    pub fn new(method: &str, path: &str) -> (r: Self)
        ensures
            r.method@ == method@,
            r.path@ == path@,
            headers_view(r.headers@) == Seq::<(Seq<char>, Seq<char>)>::empty(),
            r.body@ == Seq::<u8>::empty(),
    {
        let r = WebhookRequest {
            method: method.to_owned(),
            path: path.to_owned(),
            headers: StrMap::new(),
            body: Vec::new(),
        };
        proof {
            assert(headers_view(r.headers@) =~= Seq::<(Seq<char>, Seq<char>)>::empty());
        }
        r
    }

    /// With one header more; one with the same name is replaced.
    pub fn with_header(self, name: &str, value: &str) -> (r: Self)
        ensures
            headers_view(r.headers@) == put(headers_view(self.headers@), name@, value@),
            r == (WebhookRequest { headers: r.headers, ..self }),
    {
        let mut r = self;
        let v = value.to_owned();
        proof {
            crate::ordmap::lemma_map_vals_put(r.headers@, |x: String| x@, name@, v);
        }
        r.headers.insert(name.to_owned(), v);
        r
    }

    /// With this body.
    pub fn with_body(self, body: Vec<u8>) -> (r: Self)
        ensures
            r == (WebhookRequest { body, ..self }),
    {
        let mut r = self;
        r.body = body;
        r
    }

    /// The value of a header, whatever the case of its name; see
    /// [`header_value`].
    pub fn header(&self, name: &str) -> (r: Option<&str>)
        ensures
            match r {
                Some(v) => header_value(headers_view(self.headers@), name@) == Some(v@),
                None => header_value(headers_view(self.headers@), name@) is None,
            },
    {
        let target = text::to_ascii_lower(name);
        let ghost all = headers_view(self.headers@);
        let mut i: usize = 0;
        proof {
            assert(all.skip(0) =~= all);
        }
        while i < self.headers.entries.len()
            invariant
                i <= self.headers.entries@.len(),
                all == headers_view(self.headers@),
                target@ == ascii_lower(name@),
                header_value(all, name@) == header_value(all.skip(i as int), name@),
            decreases self.headers.entries.len() - i,
        {
            let e = &self.headers.entries[i];
            proof {
                assert(all.skip(i as int)[0] == (e.0@, e.1@));
                assert(all.skip(i as int).drop_first() =~= all.skip(i + 1));
            }
            if text::same(text::to_ascii_lower(e.0.as_str()).as_str(), target.as_str()) {
                return Some(e.1.as_str());
            }
            i += 1;
        }
        None
    }
}

/// What an accepted request says.
#[derive(Clone, Debug, PartialEq, Eq)]
pub struct WebhookEvent<P> {
    pub kind: WebhookKind,
    pub payload: P,
    pub headers: StrMap<String>,
}

/// Why a request is not accepted.
#[derive(Debug, PartialEq, Eq)]
pub enum WebhookError {
    MissingHeader { header: String },
    InvalidSignature { detail: String },
    PayloadDecode { detail: String },
    UnknownEventType { kind: String, detail: String },
    /// Trying again may help.
    Transient { detail: String },
    Permanent { detail: String },
}

/// The name of an error.
pub open spec fn webhook_error_kind(e: WebhookError) -> Seq<char> {
    match e {
        WebhookError::MissingHeader { .. } => "missing_header"@,
        WebhookError::InvalidSignature { .. } => "invalid_signature"@,
        WebhookError::PayloadDecode { .. } => "payload_decode"@,
        WebhookError::UnknownEventType { .. } => "unknown_event_type"@,
        WebhookError::Transient { .. } => "transient"@,
        WebhookError::Permanent { .. } => "permanent"@,
    }
}

/// An error in words.
pub open spec fn webhook_error_text(e: WebhookError) -> Seq<char> {
    match e {
        WebhookError::MissingHeader { header } => "webhook missing expected header "@ + text::str_debug(
            header@,
        ),
        WebhookError::InvalidSignature { detail } => "webhook signature invalid: "@ + detail@,
        WebhookError::PayloadDecode { detail } => "webhook payload decode failed: "@ + detail@,
        WebhookError::UnknownEventType { kind, detail } => "webhook unknown event type "@
            + text::str_debug(kind@) + ": "@ + detail@,
        WebhookError::Transient { detail } => "webhook transient validator error: "@ + detail@,
        WebhookError::Permanent { detail } => "webhook permanent validator error: "@ + detail@,
    }
}

impl WebhookError {
    /// Whether trying again may help.
    pub fn is_retryable(&self) -> (r: bool)
        ensures
            r == (self is Transient),
    {
        match self {
            WebhookError::Transient { .. } => true,
            _ => false,
        }
    }

    /// Whether the sender could not show who they are.
    pub fn is_auth_failure(&self) -> (r: bool)
        ensures
            r == (self is MissingHeader || self is InvalidSignature),
    {
        match self {
            WebhookError::MissingHeader { .. } | WebhookError::InvalidSignature { .. } => true,
            _ => false,
        }
    }

    /// The name of the error.
    pub fn kind(&self) -> (r: &'static str)
        ensures
            r@ == webhook_error_kind(*self),
    {
        match self {
            WebhookError::MissingHeader { .. } => "missing_header",
            WebhookError::InvalidSignature { .. } => "invalid_signature",
            WebhookError::PayloadDecode { .. } => "payload_decode",
            WebhookError::UnknownEventType { .. } => "unknown_event_type",
            WebhookError::Transient { .. } => "transient",
            WebhookError::Permanent { .. } => "permanent",
        }
    }

    /// The error in words.
    pub fn message(&self) -> (r: String)
        ensures
            r@ == webhook_error_text(*self),
    {
        match self {
            WebhookError::MissingHeader { header } => text::join2(
                "webhook missing expected header ",
                text::debug_text(header.as_str()).as_str(),
            ),
            WebhookError::InvalidSignature { detail } => text::join2(
                "webhook signature invalid: ",
                detail.as_str(),
            ),
            WebhookError::PayloadDecode { detail } => text::join2(
                "webhook payload decode failed: ",
                detail.as_str(),
            ),
            WebhookError::UnknownEventType { kind, detail } => text::join4(
                "webhook unknown event type ",
                text::debug_text(kind.as_str()).as_str(),
                ": ",
                detail.as_str(),
            ),
            WebhookError::Transient { detail } => text::join2(
                "webhook transient validator error: ",
                detail.as_str(),
            ),
            WebhookError::Permanent { detail } => text::join2(
                "webhook permanent validator error: ",
                detail.as_str(),
            ),
        }
    }
}

impl BackendError for WebhookError {
    open spec fn retryable(&self) -> bool {
        self is Transient
    }

    open spec fn kind_name(&self) -> &'static str {
        match self {
            WebhookError::MissingHeader { .. } => "missing_header",
            WebhookError::InvalidSignature { .. } => "invalid_signature",
            WebhookError::PayloadDecode { .. } => "payload_decode",
            WebhookError::UnknownEventType { .. } => "unknown_event_type",
            WebhookError::Transient { .. } => "transient",
            WebhookError::Permanent { .. } => "permanent",
        }
    }

    fn is_retryable(&self) -> (r: bool) {
        WebhookError::is_retryable(self)
    }

    fn kind(&self) -> (r: &'static str) {
        WebhookError::kind(self)
    }

    fn is_auth_failure(&self) -> (r: bool)
        ensures
            r == (self is MissingHeader || self is InvalidSignature),
    {
        WebhookError::is_auth_failure(self)
    }
}

/// The body as JSON; `null` where it is none.
pub open spec fn payload_of(body: Seq<u8>) -> JsonV {
    match json::json_parsed(body) {
        Ok(v) => v,
        Err(_) => JsonV::Null,
    }
}

/// What a body that was read as JSON gives; `null` where it could not be.
pub fn payload_from(read: Result<Json, String>) -> (r: Json)
    ensures
        r@ == match read {
            Ok(v) => v@,
            Err(_) => JsonV::Null,
        },
{
    match read {
        Ok(v) => v,
        Err(_) => Json::Null,
    }
}

/// The body as JSON; see [`payload_of`].
fn read_payload(body: &Vec<u8>) -> (r: Json)
    ensures
        r@ == payload_of(body@),
{
    payload_from(json::from_bytes(body.as_slice()))
}

/// The event that an accepted request comes to.
pub open spec fn accepted(e: WebhookEvent<Json>, kind: WebhookKind, req: WebhookRequest) -> bool {
    e.kind == kind && e.payload@ == payload_of(req.body@) && headers_view(e.headers@) == headers_view(
        req.headers@,
    )
}

/// Decides whether to believe a request.
pub trait WebhookValidator {
    /// The sender that requests are believed from.
    spec fn sender(&self) -> WebhookKind;

    /// The request is believed.
    spec fn believes(&self, req: &WebhookRequest) -> bool;

    fn kind(&self) -> (r: WebhookKind)
        ensures
            r == self.sender(),
    ;

    /// The event that a request comes to, or why it is not believed.
    fn validate(&self, req: &WebhookRequest) -> (r: Result<WebhookEvent<Json>, WebhookError>)
        ensures
            r is Ok <==> self.believes(req),
            r matches Ok(e) ==> accepted(e, self.sender(), *req),
    ;
}

/// Believes everything.
#[derive(Clone, Copy, Debug, PartialEq, Eq, Structural)]
pub struct NoOpValidator;

impl Default for NoOpValidator {
    fn default() -> (r: Self)
        ensures
            r == NoOpValidator,
    {
        NoOpValidator
    }
}

impl WebhookValidator for NoOpValidator {
    open spec fn sender(&self) -> WebhookKind {
        WebhookKind::Generic
    }

    open spec fn believes(&self, req: &WebhookRequest) -> bool {
        true
    }

    fn kind(&self) -> (r: WebhookKind) {
        WebhookKind::Generic
    }

    fn validate(&self, req: &WebhookRequest) -> (r: Result<WebhookEvent<Json>, WebhookError>) {
        Ok(
            WebhookEvent {
                kind: WebhookKind::Generic,
                payload: read_payload(&req.body),
                headers: copy_headers(&req.headers),
            },
        )
    }
}

/// Believes what has a token in a header.
#[derive(Clone, Debug)]
pub struct HeaderTokenValidator {
    pub header: String,
    pub expected: String,
}

impl HeaderTokenValidator {
    pub fn new(header: &str, expected: &str) -> (r: Self)
        ensures
            r.header@ == header@,
            r.expected@ == expected@,
    {
        HeaderTokenValidator { header: header.to_owned(), expected: expected.to_owned() }
    }

    /// What is in the header of a request.
    pub open spec fn shown(&self, req: WebhookRequest) -> Option<Seq<char>> {
        header_value(headers_view(req.headers@), self.header@)
    }
}

impl WebhookValidator for HeaderTokenValidator {
    open spec fn sender(&self) -> WebhookKind {
        WebhookKind::HeaderToken
    }

    open spec fn believes(&self, req: &WebhookRequest) -> bool {
        self.shown(*req) == Some(self.expected@)
    }

    fn kind(&self) -> (r: WebhookKind) {
        WebhookKind::HeaderToken
    }

    fn validate(&self, req: &WebhookRequest) -> (r: Result<WebhookEvent<Json>, WebhookError>)
        ensures
            self.shown(*req) is None <==> r is Err && r->Err_0 is MissingHeader,
            r matches Err(WebhookError::MissingHeader { header }) ==> header@ == self.header@,
            r matches Err(e) ==> e is MissingHeader || (e matches WebhookError::InvalidSignature {
                detail,
            } && detail@ == "token mismatch on header "@ + text::str_debug(self.header@)),
    {
        match req.header(self.header.as_str()) {
            None => Err(WebhookError::MissingHeader { header: self.header.clone() }),
            Some(got) => {
                if !text::same(got, self.expected.as_str()) {
                    return Err(
                        WebhookError::InvalidSignature {
                            detail: text::join2(
                                "token mismatch on header ",
                                text::debug_text(self.header.as_str()).as_str(),
                            ),
                        },
                    );
                }
                Ok(
                    WebhookEvent {
                        kind: WebhookKind::HeaderToken,
                        payload: read_payload(&req.body),
                        headers: copy_headers(&req.headers),
                    },
                )
            },
        }
    }
}

/// The case of a header's name makes no difference to its lookup.
pub proof fn law_header_case_does_not_matter(hs: Headers, a: Seq<char>, b: Seq<char>)
    requires
        ascii_lower(a) == ascii_lower(b),
    ensures
        header_value(hs, a) == header_value(hs, b),
    decreases hs.len(),
{
    if hs.len() > 0 {
        law_header_case_does_not_matter(hs.drop_first(), a, b);
    }
}

/// The value of a header is that of the first one whose name is the same but
/// for case.
pub proof fn law_first_header_counts(hs: Headers, name: Seq<char>, i: int)
    ensures
        0 <= i < hs.len() && ascii_lower(hs[i].0) == ascii_lower(name) && (forall|j: int|
            0 <= j < i ==> ascii_lower((#[trigger] hs[j]).0) != ascii_lower(name)) ==> header_value(
            hs,
            name,
        ) == Some(hs[i].1),
        (forall|j: int|
            0 <= j < hs.len() ==> ascii_lower((#[trigger] hs[j]).0) != ascii_lower(name))
            ==> header_value(hs, name) is None,
    decreases hs.len(),
{
    if hs.len() > 0 {
        let t = hs.drop_first();
        law_first_header_counts(t, name, i - 1);
        assert forall|j: int| 0 <= j < t.len() implies #[trigger] t[j] == hs[j + 1] by {}
        if 0 < i < hs.len() && ascii_lower(hs[i].0) == ascii_lower(name) && (forall|j: int|
            0 <= j < i ==> ascii_lower((#[trigger] hs[j]).0) != ascii_lower(name)) {
            assert(ascii_lower(hs[0].0) != ascii_lower(name));
            assert(t[i - 1] == hs[i]);
            assert forall|j: int| 0 <= j < i - 1 implies ascii_lower((#[trigger] t[j]).0)
                != ascii_lower(name) by {
                assert(ascii_lower(hs[j + 1].0) != ascii_lower(name));
            }
        }
        if forall|j: int|
            0 <= j < hs.len() ==> ascii_lower((#[trigger] hs[j]).0) != ascii_lower(name) {
            assert(ascii_lower(hs[0].0) != ascii_lower(name));
            assert forall|j: int| 0 <= j < t.len() implies ascii_lower((#[trigger] t[j]).0)
                != ascii_lower(name) by {
                assert(ascii_lower(hs[j + 1].0) != ascii_lower(name));
            }
        }
    }
}

/// An accepted request is handed on with its headers, and with its body as
/// JSON where it is JSON, else null.
pub proof fn law_accepted_requests_are_handed_on(
    e: WebhookEvent<Json>,
    kind: WebhookKind,
    req: WebhookRequest,
)
    requires
        accepted(e, kind, req),
    ensures
        e.kind == kind,
        headers_view(e.headers@) == headers_view(req.headers@),
        json::json_parsed(req.body@) matches Ok(v) ==> e.payload@ == v,
        json::json_parsed(req.body@) is Err ==> e.payload@ is Null,
{
}

/// A request is believed where the first header of the agreed name shows the
/// agreed token, and not where it shows another one or none.
pub proof fn law_token_must_match(v: HeaderTokenValidator, req: WebhookRequest)
    ensures
        v.believes(&req) <==> header_value(headers_view(req.headers@), v.header@) == Some(
            v.expected@,
        ),
        v.sender() == WebhookKind::HeaderToken,
{
}

/// Only what may pass by itself is worth another try.
pub proof fn law_transient_errors_are_retried(e: WebhookError)
    ensures
        e.retryable() <==> e is Transient,
{
}

} // verus!
