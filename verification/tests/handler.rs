use pipeline_router::http::handler::{
    handle_request, same_bytes, starts_with_bytes, Filter, FilterBase, Handler, PathRule, Select,
    GET, POST, PUT,
};
use pipeline_router::http::message::{Method, Response};
use pipeline_router::http::router::{Parked, Router};
use pipeline_router::pipeline::link::{Failure, Pipeline, Step, Turn};
use serde::de::Error;
use serde::ser::SerializeStruct;
use std::convert::Infallible;
use std::future::{ready, Future};
use std::time::Duration;

/// What stands for a request in these tests: its body.
struct Request {
    body: Vec<u8>,
}

impl Request {
    fn new(body: &str) -> Request {
        Request {
            body: body.as_bytes().to_vec(),
        }
    }
}

/// Pending work that a test can complete on the spot.
trait Settle {
    type Output;
    fn settle(self) -> Self::Output;
}

impl Settle for Infallible {
    type Output = Infallible;
    fn settle(self) -> Infallible {
        match self {}
    }
}

impl<A: Settle, F: Future> Settle for Turn<A, F> {
    type Output = Turn<A::Output, F::Output>;
    fn settle(self) -> Self::Output {
        match self {
            Turn::Before(earlier) => Turn::Before(earlier.settle()),
            Turn::Here(work) => Turn::Here(
                tokio::runtime::Builder::new_current_thread()
                    .enable_time()
                    .build()
                    .unwrap()
                    .block_on(work),
            ),
        }
    }
}

/// Lets `handler` serve one request, completing pending work as it comes.
fn serve<H>(handler: &H, path: &str, body: H::Request) -> Result<Response, Failure>
where
    H: Handler,
    H::Wait: Settle<Output = H::Wake>,
{
    let mut step = handler.proc(path.to_string(), body);
    loop {
        match step {
            Step::Done(r) => return r,
            Step::Pending(wait) => step = handler.resume(wait.settle()),
        }
    }
}

/// Lets `router` serve one request, completing pending work as it comes.
fn dispatch<H>(router: &Router<H>, method: Method, path: &str, body: H::Request) -> Response
where
    H: Handler,
    H::Wait: Settle<Output = H::Wake>,
{
    let mut step = router.process(method, path.to_string(), body);
    loop {
        match step {
            Step::Done(response) => return response,
            Step::Pending(Parked { handler, wait }) => {
                step = Router::resume(handler, wait.settle())
            }
        }
    }
}

fn read(request: Request) -> std::future::Ready<Result<Vec<u8>, Failure>> {
    ready(Ok(request.body))
}

fn text(response: &Response) -> String {
    String::from_utf8(response.body.clone()).unwrap()
}

struct Fire {
    a: i32,
    b: String,
}

impl serde::Serialize for Fire {
    fn serialize<S: serde::Serializer>(&self, s: S) -> Result<S::Ok, S::Error> {
        let mut out = s.serialize_struct("Fire", 2)?;
        out.serialize_field("a", &self.a)?;
        out.serialize_field("b", &self.b)?;
        out.end()
    }
}

impl<'de> serde::Deserialize<'de> for Fire {
    fn deserialize<D: serde::Deserializer<'de>>(d: D) -> Result<Fire, D::Error> {
        let fields = std::collections::BTreeMap::<String, serde_json::Value>::deserialize(d)?;
        let a = fields
            .get("a")
            .and_then(|v| v.as_i64())
            .ok_or_else(|| D::Error::missing_field("a"))?;
        let b = fields
            .get("b")
            .and_then(|v| v.as_str())
            .ok_or_else(|| D::Error::missing_field("b"))?;
        Ok(Fire {
            a: a as i32,
            b: b.to_string(),
        })
    }
}

struct Hole {
    c: i32,
    d: String,
}

impl serde::Serialize for Hole {
    fn serialize<S: serde::Serializer>(&self, s: S) -> Result<S::Ok, S::Error> {
        let mut out = s.serialize_struct("Hole", 2)?;
        out.serialize_field("c", &self.c)?;
        out.serialize_field("d", &self.d)?;
        out.end()
    }
}

#[test]
fn test_router() {
    async fn pf(tuple: (String, Request)) -> Result<Response, Failure> {
        let (_, req) = tuple;
        let mut body = read(req).await?;
        let mut sufix = Vec::from("!");
        body.append(&mut sufix);
        Ok(Response::new(200, body))
    }
    let a = GET()
        .start_with("hello")
        .handle()
        .then_async_result(pf)
        .then(|x| x)
        .then_async(|r| async move {
            tokio::time::sleep(Duration::from_millis(20)).await;
            r
        });
    assert!(a.test("hello world"));
    assert!(a.method().same(&Method::Get));
    let res = serve(&a, "aa", Request::new("aaa"));
    let whole_body = res.unwrap();
    println!("ddd: {}", text(&whole_body));
    assert_eq!(whole_body.status, 200);
    assert_eq!(text(&whole_body), "aaa!");

    let mut r = Router::new();
    r.add(a);
    let res2 = dispatch(&r, Method::Get, "hello world", Request::new("ccc"));
    println!("ddd: {}", text(&res2));
    assert_eq!(res2.status, 200);
    assert_eq!(text(&res2), "ccc!");
}

#[test]
fn test_ok() {
    {
        let a = GET().start_with("hello").handle_request().ok_with_msg("");
        assert!(a.test("hello world"));
        assert!(a.method().same(&Method::Get));
        let res = serve(&a, "aa", Request::new("aaa"));
        let whole_body = res.unwrap();
        println!("ddd: {}", text(&whole_body));
        assert_eq!(whole_body.status, 200);
        assert_eq!(text(&whole_body), "");
    }
    {
        let a = GET()
            .start_with("hello")
            .handle_request()
            .then(|_: Request| "message")
            .ok();
        assert!(a.test("hello world"));
        assert!(a.method().same(&Method::Get));
        let res = serve(&a, "aa", Request::new("aaa"));
        let whole_body = res.unwrap();
        println!("ddd: {}", text(&whole_body));
        assert_eq!(whole_body.status, 200);
        assert_eq!(text(&whole_body), "message");
    }
}

#[test]
fn test_parse_json() {
    let h = GET()
        .eq("hello")
        .handle_request()
        .parse_json(read)
        .then(|f: Fire| {
            println!("{} {}", f.a, f.b);
            Hole { c: f.a, d: f.b }
        })
        .to_json();

    let f = Fire {
        a: 10,
        b: "123".to_string(),
    };
    let fjson = serde_json::to_string(&f).unwrap();
    let res = serve(&h, "hello", Request::new(&fjson));
    let whole_body = res.unwrap();
    println!("ddd: {}", text(&whole_body));
    assert_eq!(whole_body.status, 200);
    assert_eq!(text(&whole_body), "{\"c\":10,\"d\":\"123\"}");
}

#[test]
fn malformed_json_is_reported_with_the_decoder_text() {
    let h = handle_request(POST().eq("/fire"))
        .parse_json(read)
        .then(|f: Fire| Hole { c: f.a, d: f.b })
        .to_json();
    let expected = serde_json::from_slice::<Fire>(b"{\"a\": 10,")
        .err()
        .unwrap()
        .to_string();
    let res = serve(&h, "/fire", Request::new("{\"a\": 10,")).unwrap();
    assert_eq!(res.status, 500);
    assert_eq!(text(&res), expected);
    assert_eq!(text(&res), "EOF while parsing a value at line 1 column 9");
}

#[test]
fn a_broken_body_is_reported_and_nothing_is_decoded() {
    let h = handle_request(POST().eq("/fire"))
        .parse_json(|_: Request| ready(Err::<Vec<u8>, Failure>(Failure::transport("stream broke"))))
        .then(|f: Fire| Hole { c: f.a, d: f.b })
        .to_json();
    let res = serve(&h, "/fire", Request::new("{\"a\":1,\"b\":\"x\"}")).unwrap();
    assert_eq!(res.status, 500);
    assert_eq!(text(&res), "stream broke");
}

#[test]
fn parse_json_parks_on_the_body() {
    let h = handle_request(POST().eq("/n")).parse_json::<i32, _, _>(read).then(|n| n + 1);
    let step = h.pipeline.process(("/n".to_string(), Request::new("41")));
    let work = match step {
        Step::Pending(Turn::Here(work)) => work,
        _ => panic!("expected to park on the body"),
    };
    assert_eq!(work.into_inner().unwrap(), b"41".to_vec());
    match h.pipeline.resume(Turn::Here(Ok(b"41".to_vec()))) {
        Step::Done(Ok(n)) => assert_eq!(n, 42),
        _ => panic!("expected the number"),
    }
}

#[test]
fn ok_with_msg_ignores_the_value() {
    let a = handle_request(GET().start_with("/hello"))
        .then(|_: Request| 17)
        .ok_with_msg("world");
    let res = serve(&a, "/hello/x", Request::new("ignored")).unwrap();
    assert_eq!(res.status, 200);
    assert_eq!(res.body, b"world".to_vec());
}

#[test]
fn ok_takes_the_value_as_body() {
    let a = handle_request(GET().start_with("/"))
        .then(|r: Request| r.body)
        .ok();
    let res = serve(&a, "/", Request::new("bytes")).unwrap();
    assert_eq!(res.status, 200);
    assert_eq!(res.body, b"bytes".to_vec());
    let b = handle_request(GET().start_with("/"))
        .then(|r: Request| String::from_utf8(r.body).unwrap() + "!")
        .ok();
    let res = serve(&b, "/", Request::new("text")).unwrap();
    assert_eq!(res.body, b"text!".to_vec());
}

#[test]
fn ret_replies_to_a_value_and_to_an_error() {
    let a = handle_request(GET().start_with("/"))
        .then(|r: Request| {
            if r.body.len() % 2 == 0 {
                Ok(r.body)
            } else {
                Err(Failure::transform("odd"))
            }
        })
        .ret();
    let res = serve(&a, "/", Request::new("even")).unwrap();
    assert_eq!(res.status, 200);
    assert_eq!(text(&res), "even");
    let res = serve(&a, "/", Request::new("odd")).unwrap();
    assert_eq!(res.status, 500);
    assert_eq!(text(&res), "odd");
}

#[test]
fn a_pipeline_error_becomes_a_server_error_reply() {
    let a = GET()
        .start_with("/")
        .handle()
        .then_result(|pair: (String, Request)| {
            if pair.0 == "/fine" {
                Ok(pair.1.body)
            } else {
                Err(Failure::transform("refused"))
            }
        })
        .ok();
    let res = serve(&a, "/fine", Request::new("body")).unwrap();
    assert_eq!((res.status, text(&res)), (200, "body".to_string()));
    let res = serve(&a, "/other", Request::new("body")).unwrap();
    assert_eq!((res.status, text(&res)), (500, "refused".to_string()));
}

#[test]
fn to_json_writes_the_value() {
    let a = handle_request(GET().start_with("/"))
        .then(|r: Request| (r.body.len(), "x".to_string()))
        .to_json();
    let res = serve(&a, "/", Request::new("four")).unwrap();
    assert_eq!(res.status, 200);
    assert_eq!(text(&res), "[4,\"x\"]");
}

#[test]
fn to_json_reports_a_value_that_cannot_be_written() {
    let a = handle_request(GET().start_with("/"))
        .then(|_: Request| {
            let mut keys = std::collections::BTreeMap::new();
            keys.insert((1, 2), 3);
            keys
        })
        .to_json();
    let res = serve(&a, "/", Request::new("")).unwrap();
    assert_eq!(res.status, 500);
    assert_eq!(text(&res), "key must be a string");
}

#[test]
fn handle_hands_on_path_and_request() {
    let a = GET()
        .eq("/both")
        .handle()
        .then(|pair: (String, Request)| format!("{}:{}", pair.0, pair.1.body.len()))
        .ok();
    let res = serve(&a, "/both", Request::new("abc")).unwrap();
    assert_eq!(text(&res), "/both:3");
}

#[test]
fn filters_test_paths_byte_for_byte() {
    let prefix: FilterBase<PathRule> = GET().start_with("/hello");
    assert!(prefix.test("/hello"));
    assert!(prefix.test("/hello/x"));
    assert!(!prefix.test("/hell"));
    assert!(!prefix.test("/other"));
    assert!(!prefix.test(""));
    let exact = PUT().eq("/héllo");
    assert!(exact.test("/héllo"));
    assert!(!exact.test("/héllo/"));
    assert!(!exact.test("/hello"));
    let any = POST().start_with("");
    assert!(any.test(""));
    assert!(any.test("/anything"));
    assert_eq!(PathRule::StartsWith("/é").check("/éa"), true);
    assert_eq!(PathRule::StartsWith("/é").check("/e"), false);
    assert_eq!(PathRule::Equals("").check(""), true);
}

#[test]
fn filters_carry_their_method() {
    assert!(GET().start_with("/").method().same(&Method::Get));
    assert!(POST().start_with("/").method().same(&Method::Post));
    assert!(PUT().eq("/").method().same(&Method::Put));
    assert!(!PUT().eq("/").method().same(&Method::Get));
    let entry = handle_request::<_, Request>(POST().eq("/x"));
    assert!(entry.method().same(&Method::Post));
    assert!(entry.test("/x"));
    assert!(!entry.test("/y"));
}

#[test]
fn odd_through_ret_is_a_server_error() {
    let a = GET()
        .start_with("/")
        .handle_request()
        .then(|r: Request| {
            let x: i32 = String::from_utf8(r.body).unwrap().parse().unwrap();
            if x % 2 == 0 {
                Ok(x.to_string())
            } else {
                Err(Failure::transform("odd"))
            }
        })
        .ret();
    let res = serve(&a, "/", Request::new("5")).unwrap();
    assert_eq!(res.status, 500);
    assert_eq!(res.body, b"odd".to_vec());
    let res = serve(&a, "/", Request::new("4")).unwrap();
    assert_eq!(res.status, 200);
    assert_eq!(res.body, b"4".to_vec());
}

#[test]
fn bytes_compare_as_they_stand() {
    assert!(starts_with_bytes(b"abc", b""));
    assert!(starts_with_bytes(b"abc", b"ab"));
    assert!(starts_with_bytes(b"abc", b"abc"));
    assert!(!starts_with_bytes(b"abc", b"abcd"));
    assert!(!starts_with_bytes(b"abc", b"b"));
    assert!(!starts_with_bytes(b"", b"a"));
    assert!(same_bytes(b"", b""));
    assert!(same_bytes(b"abc", b"abc"));
    assert!(!same_bytes(b"abc", b"abd"));
    assert!(!same_bytes(b"abc", b"ab"));
    assert!(!same_bytes(b"ab", b"abc"));
}
