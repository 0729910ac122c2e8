use crate::http::json::{decode, decodes, displays, encode, encodes, json_failure};
use crate::http::message::{IntoBody, Method, Reply, Response, Verb, STATUS_OK, STATUS_SERVER_ERROR};
use crate::pipeline::async_connect::{
    ends_with_result, ends_with_value, hands_work, links_parking, AsyncConnect,
};
use crate::pipeline::connect::{extends, gives_result, gives_value, links, needs_of, Connect};
use crate::pipeline::link::{begin, ErrorFuc, Failure, Pipeline, Start, Step, Turn};
use core::convert::Infallible;
use core::future::Future;
use vstd::prelude::*;
use vstd::utf8::{encode_utf8, encode_utf8_decode_utf8};

verus! {

/// Whether `prefix` is the start of `text`.
pub fn starts_with_bytes(text: &[u8], prefix: &[u8]) -> (b: bool)
    ensures
        b == prefix@.is_prefix_of(text@),
{
    if prefix.len() > text.len() {
        return false;
    }
    let mut i: usize = 0;
    while i < prefix.len()
        invariant
            i <= prefix.len() <= text.len(),
            forall|j: int| 0 <= j < i ==> prefix@[j] == text@[j],
        decreases prefix.len() - i,
    {
        if prefix[i] != text[i] {
            assert(text@.subrange(0, prefix@.len() as int)[i as int] == text@[i as int]);
            return false;
        }
        i += 1;
    }
    assert(prefix@ =~= text@.subrange(0, prefix@.len() as int));
    true
}

/// Whether the two hold the same bytes.
pub fn same_bytes(left: &[u8], right: &[u8]) -> (b: bool)
    ensures
        b == (left@ == right@),
{
    if left.len() != right.len() {
        return false;
    }
    let mut i: usize = 0;
    while i < left.len()
        invariant
            i <= left.len() == right.len(),
            forall|j: int| 0 <= j < i ==> left@[j] == right@[j],
        decreases left.len() - i,
    {
        if left[i] != right[i] {
            return false;
        }
        i += 1;
    }
    assert(left@ =~= right@);
    true
}

/// A rule on request paths.
pub enum PathRule {
    /// The path starts with this text, byte for byte.
    StartsWith(&'static str),
    /// The path is this text.
    Equals(&'static str),
}

impl PathRule {
    /// Whether `path` meets the rule.
    pub open spec fn holds(&self, path: Seq<char>) -> bool {
        match self {
            PathRule::StartsWith(prefix) => encode_utf8(prefix@).is_prefix_of(encode_utf8(path)),
            PathRule::Equals(text) => path == text@,
        }
    }

    /// Tests `path` against the rule.
    pub fn check(&self, path: &str) -> (b: bool)
        ensures
            b == self.holds(path@),
    {
        match self {
            PathRule::StartsWith(prefix) => starts_with_bytes(path.as_bytes(), prefix.as_bytes()),
            PathRule::Equals(text) => {
                proof {
                    encode_utf8_decode_utf8(path@);
                    encode_utf8_decode_utf8(text@);
                }
                same_bytes(path.as_bytes(), text.as_bytes())
            },
        }
    }
}

/// Something registered under one request method.
pub trait Select {
    /// The method it is registered under.
    spec fn verb(&self) -> Verb;

    /// A copy of the method it is registered under.
    fn method(&self) -> (m: Method)
        ensures
            m@ == self.verb(),
    ;
}

/// Something that takes some request paths and leaves the others.
pub trait Filter: Select + Sized {
    /// Whether it takes `path`.
    spec fn matches(&self, path: Seq<char>) -> bool;

    /// Tests `path`.
    fn test(&self, path: &str) -> (b: bool)
        ensures
            b == self.matches(path@),
    ;

    /// Starts the pipeline that serves what this filter takes. Its input is
    /// the path with the request.
    fn handle<R>(self) -> (entry: EntryBase<Self, Start<(String, R)>>)
        ensures
            entry.test == self,
    {
        EntryBase { test: self, pipeline: begin() }
    }
}

/// A request method with a rule on paths (`T`), or with none yet (`()`).
pub struct FilterBase<T> {
    pub method: Method,
    pub inner: T,
}

/// A filter for GET requests, still without a rule on paths.
#[allow(non_snake_case)]
pub fn GET() -> (base: FilterBase<()>)
    ensures
        base.method == Method::Get,
{
    FilterBase { method: Method::Get, inner: () }
}

/// A filter for POST requests, still without a rule on paths.
#[allow(non_snake_case)]
pub fn POST() -> (base: FilterBase<()>)
    ensures
        base.method == Method::Post,
{
    FilterBase { method: Method::Post, inner: () }
}

/// A filter for PUT requests, still without a rule on paths.
#[allow(non_snake_case)]
pub fn PUT() -> (base: FilterBase<()>)
    ensures
        base.method == Method::Put,
{
    FilterBase { method: Method::Put, inner: () }
}

impl FilterBase<()> {
    /// The filter that takes the paths that start with `prefix`.
    pub fn start_with(self, prefix: &'static str) -> (filter: FilterBase<PathRule>)
        ensures
            filter.method == self.method,
            filter.inner == PathRule::StartsWith(prefix),
    {
        FilterBase { method: self.method, inner: PathRule::StartsWith(prefix) }
    }

    /// The filter that takes the one path `text`.
    pub fn eq(self, text: &'static str) -> (filter: FilterBase<PathRule>)
        ensures
            filter.method == self.method,
            filter.inner == PathRule::Equals(text),
    {
        FilterBase { method: self.method, inner: PathRule::Equals(text) }
    }
}

impl FilterBase<PathRule> {
    /// Starts the pipeline that serves what this filter takes, with a first
    /// stage that drops the path. What follows receives the request alone.
    pub fn handle_request<R>(self) -> (entry: EntryBase<
        Self,
        impl Pipeline<IN = (String, R), OUT = R, Wait = Infallible, Wake = Infallible>,
    >)
        ensures
            entry.test == self,
            forall|input: (String, R)| #[trigger] entry.pipeline.accepts(input),
            forall|input: (String, R), step: Step<Infallible, Result<R, Failure>>| #[trigger]
                entry.pipeline.starts(input, step) ==> step == Step::<Infallible, Result<R, Failure>>::Done(
                    Ok(input.1),
                ),
    {
        handle_request(self)
    }
}

impl<T> Select for FilterBase<T> {
    open spec fn verb(&self) -> Verb {
        self.method@
    }

    fn method(&self) -> (m: Method) {
        self.method.clone()
    }
}

impl Filter for FilterBase<PathRule> {
    open spec fn matches(&self, path: Seq<char>) -> bool {
        self.inner.holds(path)
    }

    fn test(&self, path: &str) -> (b: bool) {
        self.inner.check(path)
    }
}

/// A filter with the pipeline that serves what the filter takes.
pub struct EntryBase<T, P> {
    pub test: T,
    pub pipeline: P,
}

impl<T, P> Select for EntryBase<T, P> where T: Filter {
    open spec fn verb(&self) -> Verb {
        self.test.verb()
    }

    fn method(&self) -> (m: Method) {
        self.test.method()
    }
}

impl<T, P> Filter for EntryBase<T, P> where T: Filter {
    open spec fn matches(&self, path: Seq<char>) -> bool {
        self.test.matches(path)
    }

    fn test(&self, path: &str) -> (b: bool) {
        self.test.test(path)
    }
}

impl<T, P> EntryBase<T, P> where P: Pipeline {
    /// Links a total stage that hands back pending work.
    pub fn then_async<NXT, F, FUT>(self, f: F) -> (entry: EntryBase<
        T,
        impl Pipeline<IN = P::IN, OUT = NXT, Wait = Turn<P::Wait, FUT>, Wake = Turn<P::Wake, NXT>>,
    >) where F: Fn(P::OUT) -> FUT, FUT: Future<Output = NXT>
        ensures
            entry.test == self.test,
            links_parking(&entry.pipeline, &self.pipeline, needs_of(f), hands_work(f), ends_with_value::<NXT>()),
    {
        let pipeline = AsyncConnect { prev: self.pipeline, next: f };
        proof {
            pipeline.lemma_links();
        }
        EntryBase { test: self.test, pipeline }
    }

    /// Links a fallible stage that hands back pending work.
    pub fn then_async_result<NXT, F, FUT>(self, f: F) -> (entry: EntryBase<
        T,
        impl Pipeline<
            IN = P::IN,
            OUT = NXT,
            Wait = Turn<P::Wait, FUT>,
            Wake = Turn<P::Wake, Result<NXT, Failure>>,
        >,
    >) where F: Fn(P::OUT) -> FUT, FUT: Future<Output = Result<NXT, Failure>>
        ensures
            entry.test == self.test,
            links_parking(&entry.pipeline, &self.pipeline, needs_of(f), hands_work(f), ends_with_result::<NXT>()),
    {
        let pipeline = AsyncConnect { prev: self.pipeline, next: ErrorFuc::new(f) };
        proof {
            pipeline.lemma_links_result();
        }
        EntryBase { test: self.test, pipeline }
    }

    /// Links a total stage.
    pub fn then<NXT, F>(self, f: F) -> (entry: EntryBase<
        T,
        impl Pipeline<IN = P::IN, OUT = NXT, Wait = P::Wait, Wake = P::Wake>,
    >) where F: Fn(P::OUT) -> NXT
        ensures
            entry.test == self.test,
            links(&entry.pipeline, &self.pipeline, needs_of(f), gives_value(f)),
    {
        let pipeline = Connect { prev: self.pipeline, next: f };
        proof {
            pipeline.lemma_links();
        }
        EntryBase { test: self.test, pipeline }
    }

    /// Links a fallible stage.
    pub fn then_result<NXT, F>(self, f: F) -> (entry: EntryBase<
        T,
        impl Pipeline<IN = P::IN, OUT = NXT, Wait = P::Wait, Wake = P::Wake>,
    >) where F: Fn(P::OUT) -> Result<NXT, Failure>
        ensures
            entry.test == self.test,
            links(&entry.pipeline, &self.pipeline, needs_of(f), gives_result(f)),
    {
        let pipeline = Connect { prev: self.pipeline, next: ErrorFuc::new(f) };
        proof {
            pipeline.lemma_links_result();
        }
        EntryBase { test: self.test, pipeline }
    }
}

/// Starts the pipeline that serves what `filter` takes, with a first stage
/// that drops the path. What follows receives the request alone.
pub fn handle_request<T: Filter, R>(filter: T) -> (entry: EntryBase<
    T,
    impl Pipeline<IN = (String, R), OUT = R, Wait = Infallible, Wake = Infallible>,
>)
    ensures
        entry.test == filter,
        forall|input: (String, R)| #[trigger] entry.pipeline.accepts(input),
        forall|input: (String, R), step: Step<Infallible, Result<R, Failure>>| #[trigger]
            entry.pipeline.starts(input, step) ==> step == Step::<Infallible, Result<R, Failure>>::Done(
                Ok(input.1),
            ),
{
    let request = |pair: (String, R)| -> (request: R)
        ensures
            request == pair.1,
        { pair.1 };
    let pipeline = Connect { prev: begin::<(String, R)>(), next: request };
    proof {
        pipeline.lemma_extends(|pair: (String, R), r: Result<R, Failure>| r == Ok::<R, Failure>(pair.1));
    }
    EntryBase { test: filter, pipeline }
}

/// The reply that reports `e`: a server error with the error's text as body.
pub open spec fn reports(e: Failure) -> Reply {
    Reply { status: STATUS_SERVER_ERROR, body: encode_utf8(e.text()) }
}

/// What the last stage of a handler makes of a value: the reply `reply`,
/// whatever the value.
pub open spec fn replies_always<A>(reply: Reply) -> spec_fn(A, Result<Response, Failure>) -> bool {
    |mid: A, r: Result<Response, Failure>| r matches Ok(response) && response@ == reply
}

/// What the last stage of a handler makes of a value: the reply of status
/// OK with the value as body.
pub open spec fn replies_body<A: IntoBody>() -> spec_fn(A, Result<Response, Failure>) -> bool {
    |mid: A, r: Result<Response, Failure>|
        r matches Ok(response) && response@ == (Reply { status: STATUS_OK, body: mid.bytes() })
}

/// What the last stage of a handler makes of a result: of a value the reply
/// of status OK with the value as body, of an error the reply that reports it.
pub open spec fn replies_result<V: IntoBody>() -> spec_fn(Result<V, Failure>, Result<Response, Failure>) -> bool {
    |mid: Result<V, Failure>, r: Result<Response, Failure>|
        r matches Ok(response) && response@ == (match mid {
            Ok(value) => Reply { status: STATUS_OK, body: value.bytes() },
            Err(e) => reports(e),
        })
}

/// What the last stage of a handler makes of a value that it writes as JSON.
pub open spec fn replies_json<A>() -> spec_fn(A, Result<Response, Failure>) -> bool {
    |mid: A, r: Result<Response, Failure>| encodes(r)
}

/// What a stage makes of bytes that it reads as JSON.
pub open spec fn parses<NXT>() -> spec_fn(Vec<u8>, Result<NXT, Failure>) -> bool {
    |mid: Vec<u8>, r: Result<NXT, Failure>| decodes(r)
}

impl<T, P> EntryBase<T, P> where T: Filter, P: Pipeline {
    /// Links the two stages that make a `NXT` of a request: `read` hands back
    /// the work of reading the request's body, and the bytes that this work
    /// gives are read as JSON. A failure of either ends the run.
    pub fn parse_json<NXT, F, FUT>(self, read: F) -> (entry: EntryBase<
        T,
        impl Pipeline<
            IN = P::IN,
            OUT = NXT,
            Wait = Turn<P::Wait, FUT>,
            Wake = Turn<P::Wake, Result<Vec<u8>, Failure>>,
        >,
    >) where
        NXT: serde::de::DeserializeOwned,
        F: Fn(P::OUT) -> FUT,
        FUT: Future<Output = Result<Vec<u8>, Failure>>,

        ensures
            entry.test == self.test,
            extends(
                &entry.pipeline,
                &(AsyncConnect { prev: self.pipeline, next: ErrorFuc { f: read } }),
                parses::<NXT>(),
            ),
    {
        let parse = |bytes: Vec<u8>| -> (r: Result<NXT, Failure>)
            ensures
                decodes(r),
            { decode::<NXT>(&bytes) };
        let pipeline = Connect {
            prev: AsyncConnect { prev: self.pipeline, next: ErrorFuc::new(read) },
            next: ErrorFuc::new(parse),
        };
        proof {
            pipeline.lemma_extends_result(parses::<NXT>());
        }
        EntryBase { test: self.test, pipeline }
    }

    /// Links the last stage: whatever the value, the reply is of status OK
    /// with `msg` as body.
    pub fn ok_with_msg(self, msg: &'static str) -> (entry: EntryBase<
        T,
        impl Pipeline<IN = P::IN, OUT = Response, Wait = P::Wait, Wake = P::Wake>,
    >)
        ensures
            entry.test == self.test,
            extends(
                &entry.pipeline,
                &self.pipeline,
                replies_always::<P::OUT>(Reply { status: STATUS_OK, body: encode_utf8(msg@) }),
            ),
    {
        let reply = move |_mid: P::OUT| -> (response: Response)
            ensures
                response@ == (Reply { status: STATUS_OK, body: encode_utf8(msg@) }),
            { Response::text(STATUS_OK, msg) };
        let pipeline = Connect { prev: self.pipeline, next: reply };
        proof {
            pipeline.lemma_extends(replies_always::<P::OUT>(Reply { status: STATUS_OK, body: encode_utf8(msg@) }));
        }
        EntryBase { test: self.test, pipeline }
    }

    /// Links the last stage: the reply is of status OK with the value as
    /// body.
    pub fn ok(self) -> (entry: EntryBase<
        T,
        impl Pipeline<IN = P::IN, OUT = Response, Wait = P::Wait, Wake = P::Wake>,
    >) where P::OUT: IntoBody
        ensures
            entry.test == self.test,
            extends(&entry.pipeline, &self.pipeline, replies_body::<P::OUT>()),
    {
        let reply = |mid: P::OUT| -> (response: Response)
            ensures
                response@ == (Reply { status: STATUS_OK, body: mid.bytes() }),
            { Response::new(STATUS_OK, mid.into_body()) };
        let pipeline = Connect { prev: self.pipeline, next: reply };
        proof {
            pipeline.lemma_extends(replies_body::<P::OUT>());
        }
        EntryBase { test: self.test, pipeline }
    }

    /// Links the last stage after a stage that hands on a result: of a value
    /// the reply is of status OK with the value as body, of an error it is
    /// the reply that reports the error.
    pub fn ret<V>(self) -> (entry: EntryBase<
        T,
        impl Pipeline<IN = P::IN, OUT = Response, Wait = P::Wait, Wake = P::Wake>,
    >) where P: Pipeline<OUT = Result<V, Failure>>, V: IntoBody
        ensures
            entry.test == self.test,
            extends(&entry.pipeline, &self.pipeline, replies_result::<V>()),
    {
        let reply = |mid: Result<V, Failure>| -> (response: Response)
            ensures
                response@ == (match mid {
                    Ok(value) => Reply { status: STATUS_OK, body: value.bytes() },
                    Err(e) => reports(e),
                }),
            {
                match mid {
                    Ok(value) => Response::new(STATUS_OK, value.into_body()),
                    Err(e) => Response::text(STATUS_SERVER_ERROR, e.description().as_str()),
                }
            };
        let pipeline = Connect { prev: self.pipeline, next: reply };
        proof {
            pipeline.lemma_extends(replies_result::<V>());
        }
        EntryBase { test: self.test, pipeline }
    }

    /// Links the last stage: the value is written as JSON into the body of a
    /// reply of status OK. A value that cannot be written ends the run with a
    /// decode error.
    pub fn to_json(self) -> (entry: EntryBase<
        T,
        impl Pipeline<IN = P::IN, OUT = Response, Wait = P::Wait, Wake = P::Wake>,
    >) where P::OUT: serde::Serialize
        ensures
            entry.test == self.test,
            extends(&entry.pipeline, &self.pipeline, replies_json::<P::OUT>()),
    {
        let reply = |mid: P::OUT| -> (r: Result<Response, Failure>)
            ensures
                encodes(r),
            { encode(&mid) };
        let pipeline = Connect { prev: self.pipeline, next: ErrorFuc::new(reply) };
        proof {
            pipeline.lemma_extends_result(replies_json::<P::OUT>());
        }
        EntryBase { test: self.test, pipeline }
    }
}

/// What a handler makes of `before`, the step that its pipeline gave: a reply
/// passes, an error becomes the reply that reports it, and pending work stays
/// pending.
pub open spec fn replies<W>(
    before: Step<W, Result<Response, Failure>>,
    step: Step<W, Result<Response, Failure>>,
) -> bool {
    match before {
        Step::Done(Ok(response)) => step == Step::<W, Result<Response, Failure>>::Done(Ok(response)),
        Step::Done(Err(e)) => step matches Step::Done(Ok(response)) && response@ == reports(e),
        Step::Pending(wait) => step == Step::<W, Result<Response, Failure>>::Pending(wait),
    }
}

/// A filter that serves what it takes.
///
/// `proc` starts the work on one request and takes it as far as it goes: to
/// its result, or to pending work. The caller completes pending work and
/// hands its outcome to `resume`.
pub trait Handler: Filter {
    type Request;

    /// The pending work that parked work on a request holds.
    type Wait;

    /// The outcome of pending work.
    type Wake;

    /// `proc` may be called on `path` and `body`.
    spec fn accepts(&self, path: String, body: Self::Request) -> bool;

    /// `proc` can give `step` on `path` and `body`.
    spec fn serves(
        &self,
        path: String,
        body: Self::Request,
        step: Step<Self::Wait, Result<Response, Failure>>,
    ) -> bool;

    /// `resume` may be called on `wake`.
    spec fn admits(&self, wake: Self::Wake) -> bool;

    /// `resume` can give `step` on `wake`.
    spec fn resumes(&self, wake: Self::Wake, step: Step<Self::Wait, Result<Response, Failure>>) -> bool;

    fn proc(&self, path: String, body: Self::Request) -> (step: Step<Self::Wait, Result<Response, Failure>>)
        requires
            self.accepts(path, body),
        ensures
            self.serves(path, body, step),
    ;

    fn resume(&self, wake: Self::Wake) -> (step: Step<Self::Wait, Result<Response, Failure>>)
        requires
            self.admits(wake),
        ensures
            self.resumes(wake, step),
    ;
}

/// No error leaves a handler: what it gives is pending work or a reply, and
/// the reply to an error of its pipeline reports that error.
pub proof fn lemma_replies_never_fail<W>(
    before: Step<W, Result<Response, Failure>>,
    step: Step<W, Result<Response, Failure>>,
)
    requires
        replies(before, step),
    ensures
        !(step matches Step::Done(Err(_))),
        before matches Step::Done(Err(e)) ==> step matches Step::Done(Ok(response)) && response.status
            == STATUS_SERVER_ERROR && response.body@ == encode_utf8(e.text()),
{
}

/// A JSON failure is reported in the reader's or the writer's own words: the
/// body of the reply is the text that its error displays, with nothing
/// round it.
pub proof fn lemma_json_failure_is_reported<W>(
    before: Step<W, Result<Response, Failure>>,
    step: Step<W, Result<Response, Failure>>,
)
    requires
        replies(before, step),
        before matches Step::Done(Err(e)) && json_failure(e),
    ensures
        step matches Step::Done(Ok(response)) && response.status == STATUS_SERVER_ERROR && exists|
            err: serde_json::Error,
            text: String,
        | #[trigger] displays(err, text) && response.body@ == encode_utf8(text@),
{
    let e = before->Done_0->Err_0;
    let text = e->Decode_0;
    let err = choose|err: serde_json::Error| #[trigger] displays(err, text);
    assert(displays(err, text) && step->Done_0->Ok_0.body@ == encode_utf8(text@));
}

impl<T, P, R> Handler for EntryBase<T, P> where T: Filter, P: Pipeline<IN = (String, R), OUT = Response> {
    type Request = R;

    type Wait = P::Wait;

    type Wake = P::Wake;

    open spec fn accepts(&self, path: String, body: R) -> bool {
        self.pipeline.accepts((path, body))
    }

    /// The pipeline runs on the path with the request, and no error leaves
    /// the handler: one that ends the run becomes the reply that reports it.
    open spec fn serves(&self, path: String, body: R, step: Step<P::Wait, Result<Response, Failure>>) -> bool {
        exists|before: Step<P::Wait, Result<Response, Failure>>| #[trigger]
            self.pipeline.starts((path, body), before) && replies(before, step)
    }

    open spec fn admits(&self, wake: P::Wake) -> bool {
        self.pipeline.admits(wake)
    }

    open spec fn resumes(&self, wake: P::Wake, step: Step<P::Wait, Result<Response, Failure>>) -> bool {
        exists|before: Step<P::Wait, Result<Response, Failure>>| #[trigger]
            self.pipeline.resumes(wake, before) && replies(before, step)
    }

    fn proc(&self, path: String, body: R) -> (step: Step<P::Wait, Result<Response, Failure>>) {
        match self.pipeline.process((path, body)) {
            Step::Done(Ok(response)) => Step::Done(Ok(response)),
            Step::Done(Err(e)) => Step::Done(Ok(Response::text(STATUS_SERVER_ERROR, e.description().as_str()))),
            Step::Pending(wait) => Step::Pending(wait),
        }
    }

    fn resume(&self, wake: P::Wake) -> (step: Step<P::Wait, Result<Response, Failure>>) {
        match self.pipeline.resume(wake) {
            Step::Done(Ok(response)) => Step::Done(Ok(response)),
            Step::Done(Err(e)) => Step::Done(Ok(Response::text(STATUS_SERVER_ERROR, e.description().as_str()))),
            Step::Pending(wait) => Step::Pending(wait),
        }
    }
}

} // verus!
