use vstd::prelude::*;
use vstd::string::StrSliceExecFns;
use vstd::utf8::encode_utf8;

verus! {

/// Status of a reply that a handler made.
pub const STATUS_OK: u16 = 200;

/// Status of the reply to a path that no handler of the method accepts.
pub const STATUS_NOT_FOUND: u16 = 404;

/// Status of the reply to a method that has no handler.
pub const STATUS_METHOD_NOT_ALLOWED: u16 = 405;

/// Status of the reply that reports an error.
pub const STATUS_SERVER_ERROR: u16 = 500;

/// A request method, as a value of the specification.
pub enum Verb {
    Get,
    Post,
    Put,
    Delete,
    Head,
    Options,
    Connect,
    Patch,
    Trace,
    /// A method outside the standard ones, by its token.
    Extension(Seq<char>),
}

/// A request method.
#[derive(Debug)]
pub enum Method {
    Get,
    Post,
    Put,
    Delete,
    Head,
    Options,
    Connect,
    Patch,
    Trace,
    /// A method outside the standard ones, by its token.
    Extension(String),
}

impl View for Method {
    type V = Verb;

    open spec fn view(&self) -> Verb {
        match self {
            Method::Get => Verb::Get,
            Method::Post => Verb::Post,
            Method::Put => Verb::Put,
            Method::Delete => Verb::Delete,
            Method::Head => Verb::Head,
            Method::Options => Verb::Options,
            Method::Connect => Verb::Connect,
            Method::Patch => Verb::Patch,
            Method::Trace => Verb::Trace,
            Method::Extension(token) => Verb::Extension(token@),
        }
    }
}

impl Method {
    /// Whether the two are the same method.
    pub fn same(&self, other: &Method) -> (b: bool)
        ensures
            b == (self@ == other@),
    {
        match (self, other) {
            (Method::Get, Method::Get) => true,
            (Method::Post, Method::Post) => true,
            (Method::Put, Method::Put) => true,
            (Method::Delete, Method::Delete) => true,
            (Method::Head, Method::Head) => true,
            (Method::Options, Method::Options) => true,
            (Method::Connect, Method::Connect) => true,
            (Method::Patch, Method::Patch) => true,
            (Method::Trace, Method::Trace) => true,
            (Method::Extension(a), Method::Extension(b)) => *a == *b,
            _ => false,
        }
    }
}

impl Clone for Method {
    fn clone(&self) -> (m: Method)
        ensures
            m == *self,
    {
        match self {
            Method::Get => Method::Get,
            Method::Post => Method::Post,
            Method::Put => Method::Put,
            Method::Delete => Method::Delete,
            Method::Head => Method::Head,
            Method::Options => Method::Options,
            Method::Connect => Method::Connect,
            Method::Patch => Method::Patch,
            Method::Trace => Method::Trace,
            Method::Extension(token) => Method::Extension(token.clone()),
        }
    }
}

/// A reply, as a value of the specification.
pub struct Reply {
    pub status: u16,
    pub body: Seq<u8>,
}

/// What goes back to the transport: a status and a body.
#[derive(Debug)]
pub struct Response {
    pub status: u16,
    pub body: Vec<u8>,
}

impl View for Response {
    type V = Reply;

    open spec fn view(&self) -> Reply {
        Reply { status: self.status, body: self.body@ }
    }
}

impl Response {
    /// The reply with this status and body.
    pub fn new(status: u16, body: Vec<u8>) -> (response: Response)
        ensures
            response.status == status,
            response.body == body,
    {
        Response { status, body }
    }

    /// The status to send the reply with: its own where that is a number of
    /// three digits, else the status of a server error. A stage is free to
    /// build a reply with any number as its status; the transport takes
    /// those of three digits only.
    pub fn status_to_send(&self) -> (status: u16)
        ensures
            status == (if 100 <= self.status <= 999 {
                self.status
            } else {
                STATUS_SERVER_ERROR
            }),
    {
        if 100 <= self.status && self.status <= 999 {
            self.status
        } else {
            STATUS_SERVER_ERROR
        }
    }

    /// The reply with this status whose body is the bytes of `text`.
    pub fn text(status: u16, text: &str) -> (response: Response)
        ensures
            response@ == (Reply { status, body: encode_utf8(text@) }),
    {
        Response { status, body: text.as_bytes_vec() }
    }
}

/// What can be the body of a reply.
pub trait IntoBody {
    /// The bytes of the body.
    spec fn bytes(&self) -> Seq<u8>;

    /// The body, as bytes.
    fn into_body(self) -> (body: Vec<u8>)
        ensures
            body@ == self.bytes(),
    ;
}

impl IntoBody for Vec<u8> {
    open spec fn bytes(&self) -> Seq<u8> {
        self@
    }

    fn into_body(self) -> (body: Vec<u8>) {
        self
    }
}

impl IntoBody for String {
    open spec fn bytes(&self) -> Seq<u8> {
        encode_utf8(self@)
    }

    fn into_body(self) -> (body: Vec<u8>) {
        self.as_str().as_bytes_vec()
    }
}

impl<'a> IntoBody for &'a str {
    open spec fn bytes(&self) -> Seq<u8> {
        encode_utf8(self@)
    }

    fn into_body(self) -> (body: Vec<u8>) {
        self.as_bytes_vec()
    }
}

} // verus!
