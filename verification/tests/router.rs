use pipeline_router::http::handler::{handle_request, Filter, Handler, Select, GET, POST, PUT};
use pipeline_router::http::message::{Method, Response};
use pipeline_router::http::router::{Parked, Router};
use pipeline_router::pipeline::link::{Failure, Step, Turn};
use std::cell::Cell;
use std::convert::Infallible;
use std::future::{ready, Future, Ready};
use std::rc::Rc;

/// What stands for a request in these tests.
struct Request;

/// Pending work that a test can complete on the spot.
trait Settle {
    type Output;
    fn settle(self) -> Self::Output;
}

impl Settle for Infallible {
    type Output = Infallible;
    fn settle(self) -> Infallible {
        match self {}
    }
}

impl<A: Settle, T> Settle for Turn<A, Ready<T>> {
    type Output = Turn<A::Output, T>;
    fn settle(self) -> Self::Output {
        match self {
            Turn::Before(earlier) => Turn::Before(earlier.settle()),
            Turn::Here(work) => Turn::Here(work.into_inner()),
        }
    }
}

/// Lets `router` serve one request, completing pending work as it comes.
fn dispatch<H>(router: &Router<H>, method: Method, path: &str) -> Response
where
    H: Handler<Request = Request>,
    H::Wait: Settle<Output = H::Wake>,
{
    let mut step = router.process(method, path.to_string(), Request);
    loop {
        match step {
            Step::Done(response) => return response,
            Step::Pending(Parked { handler, wait }) => {
                step = Router::resume(handler, wait.settle())
            }
        }
    }
}

/// A handler of `method` for the paths under `prefix` that replies `msg` and
/// counts its calls in `calls`.
fn route(
    method: Method,
    prefix: &'static str,
    msg: &'static str,
    calls: Rc<Cell<u32>>,
) -> impl Handler<Request = Request, Wait = Infallible, Wake = Infallible> {
    let base = match method {
        Method::Post => POST(),
        Method::Put => PUT(),
        _ => GET(),
    };
    handle_request(base.start_with(prefix))
        .then(move |_: Request| calls.set(calls.get() + 1))
        .ok_with_msg(msg)
}

fn counter() -> Rc<Cell<u32>> {
    Rc::new(Cell::new(0))
}

fn text(response: &Response) -> String {
    String::from_utf8(response.body.clone()).unwrap()
}

#[test]
fn hello_scenario() {
    let mut r = Router::new();
    r.add(handle_request::<_, Request>(GET().start_with("/hello")).ok_with_msg("world"));
    let res = dispatch(&r, Method::Get, "/hello/x");
    assert_eq!(res.status, 200);
    assert_eq!(res.body, b"world".to_vec());
    let res = dispatch(&r, Method::Post, "/hello");
    assert_eq!(res.status, 405);
    assert_eq!(res.body, b"method not allowed".to_vec());
    let res = dispatch(&r, Method::Get, "/other");
    assert_eq!(res.status, 404);
    assert_eq!(res.body, b"not found".to_vec());
}

#[test]
fn an_empty_router_allows_no_method() {
    let mut r = Router::new();
    if matches!(r.process(Method::Get, "/".to_string(), Request), Step::Pending(_)) {
        r.add(route(Method::Get, "/", "never", counter()));
    }
    match r.process(Method::Get, "/".to_string(), Request) {
        Step::Done(res) => {
            assert_eq!(res.status, 405);
            assert_eq!(text(&res), "method not allowed");
        }
        Step::Pending(_) => panic!("nothing to wait for"),
    }
}

#[test]
fn the_first_registered_match_wins() {
    let (wide, narrow) = (counter(), counter());
    let mut r = Router::new();
    r.add(route(Method::Get, "/a", "wide", wide.clone()));
    r.add(route(Method::Get, "/a/b", "narrow", narrow.clone()));
    let res = dispatch(&r, Method::Get, "/a/b/c");
    assert_eq!(text(&res), "wide");
    assert_eq!((wide.get(), narrow.get()), (1, 0));
    let res = dispatch(&r, Method::Get, "/a/x");
    assert_eq!(text(&res), "wide");
    assert_eq!((wide.get(), narrow.get()), (2, 0));
}

#[test]
fn a_later_handler_serves_what_earlier_ones_leave() {
    let (first, second) = (counter(), counter());
    let mut r = Router::new();
    r.add(route(Method::Get, "/a/b", "narrow", first.clone()));
    r.add(route(Method::Get, "/a", "wide", second.clone()));
    assert_eq!(text(&dispatch(&r, Method::Get, "/a/b")), "narrow");
    assert_eq!(text(&dispatch(&r, Method::Get, "/a/c")), "wide");
    assert_eq!((first.get(), second.get()), (1, 1));
}

#[test]
fn a_handler_serves_its_own_method_only() {
    let (get, post) = (counter(), counter());
    let mut r = Router::new();
    r.add(route(Method::Get, "/x", "got", get.clone()));
    r.add(route(Method::Post, "/x", "posted", post.clone()));
    assert_eq!(text(&dispatch(&r, Method::Post, "/x")), "posted");
    assert_eq!(text(&dispatch(&r, Method::Get, "/x")), "got");
    assert_eq!((get.get(), post.get()), (1, 1));
    let res = dispatch(&r, Method::Put, "/x");
    assert_eq!(res.status, 405);
    let res = dispatch(&r, Method::Delete, "/x");
    assert_eq!(res.status, 405);
    let res = dispatch(&r, Method::Extension("PURGE".to_string()), "/x");
    assert_eq!(res.status, 405);
    assert_eq!((get.get(), post.get()), (1, 1));
}

#[test]
fn not_found_reaches_no_handler() {
    let calls = counter();
    let mut r = Router::new();
    r.add(route(Method::Get, "/in", "in", calls.clone()));
    let res = dispatch(&r, Method::Get, "/out");
    assert_eq!(res.status, 404);
    assert_eq!(text(&res), "not found");
    assert_eq!(calls.get(), 0);
}

#[test]
fn merge_puts_the_other_handlers_behind() {
    let (a1, b1, posted) = (counter(), counter(), counter());
    let mut a = Router::new();
    a.add(route(Method::Get, "/shared", "a1", a1.clone()));
    let mut b = Router::new();
    b.add(route(Method::Get, "/shared/deep", "b1", b1.clone()));
    b.add(route(Method::Get, "/only-b", "b2", b1.clone()));
    b.add(route(Method::Post, "/post", "posted", posted.clone()));
    let merged = a.merge(b);
    assert_eq!(text(&dispatch(&merged, Method::Get, "/shared/deep")), "a1");
    assert_eq!((a1.get(), b1.get()), (1, 0));
    assert_eq!(text(&dispatch(&merged, Method::Get, "/only-b")), "b2");
    assert_eq!(text(&dispatch(&merged, Method::Post, "/post")), "posted");
    assert_eq!(posted.get(), 1);
    assert_eq!(dispatch(&merged, Method::Post, "/shared").status, 404);
    assert_eq!(dispatch(&merged, Method::Put, "/shared").status, 405);
}

#[test]
fn merge_the_other_way_round_lets_the_other_win() {
    let (a1, b1) = (counter(), counter());
    let mut a = Router::new();
    a.add(route(Method::Get, "/shared", "a1", a1.clone()));
    let mut b = Router::new();
    b.add(route(Method::Get, "/shared", "b1", b1.clone()));
    let merged = b.merge(a);
    assert_eq!(text(&dispatch(&merged, Method::Get, "/shared")), "b1");
    assert_eq!((a1.get(), b1.get()), (0, 1));
}

#[test]
fn merge_with_an_empty_router_changes_nothing() {
    let calls = counter();
    let mut a = Router::new();
    a.add(route(Method::Get, "/a", "a", calls.clone()));
    let merged = Router::new().merge(a).merge(Router::new());
    assert_eq!(text(&dispatch(&merged, Method::Get, "/a")), "a");
    assert_eq!(dispatch(&merged, Method::Get, "/b").status, 404);
    assert_eq!(dispatch(&merged, Method::Post, "/a").status, 405);
}

#[test]
fn the_router_parks_with_the_handler_to_resume() {
    let mut r = Router::new();
    r.add(
        handle_request(GET().start_with("/slow"))
            .then_async(|_: Request| ready(7))
            .then(|n: i32| format!("n={}", n))
            .ok(),
    );
    let parked = match r.process(Method::Get, "/slow/1".to_string(), Request) {
        Step::Pending(parked) => parked,
        Step::Done(_) => panic!("expected to park"),
    };
    assert!(parked.handler.test("/slow"));
    assert!(parked.handler.method().same(&Method::Get));
    let value = match parked.wait {
        Turn::Here(work) => work.into_inner(),
        Turn::Before(_) => panic!("expected the work of the parking stage"),
    };
    assert_eq!(value, 7);
    match Router::resume(parked.handler, Turn::Here(8)) {
        Step::Done(res) => {
            assert_eq!(res.status, 200);
            assert_eq!(text(&res), "n=8");
        }
        Step::Pending(_) => panic!("expected the reply"),
    }
}

#[test]
fn an_error_after_parking_is_reported() {
    let mut r = Router::new();
    r.add(
        handle_request(GET().start_with("/"))
            .then_async_result(|_: Request| ready(Ok::<i32, Failure>(1)))
            .then(|n: i32| n.to_string())
            .ok(),
    );
    let parked = match r.process(Method::Get, "/".to_string(), Request) {
        Step::Pending(parked) => parked,
        Step::Done(_) => panic!("expected to park"),
    };
    match Router::resume(parked.handler, Turn::Here(Err(Failure::transport("gone")))) {
        Step::Done(res) => {
            assert_eq!(res.status, 500);
            assert_eq!(text(&res), "gone");
        }
        Step::Pending(_) => panic!("expected the reply"),
    }
}

/// `Router::err_response`, for the handler type of `_router`.
fn err_response<H: Handler, T: pipeline_router::http::message::IntoBody>(
    _router: &Router<H>,
    status: u16,
    message: T,
) -> Response {
    Router::<H>::err_response(status, message)
}

#[test]
fn err_response_has_status_and_body() {
    let mut r = Router::new();
    r.add(route(Method::Get, "/", "unused", counter()));
    let res = err_response(&r, 418, "teapot");
    assert_eq!((res.status, text(&res)), (418, "teapot".to_string()));
    let res = err_response(&r, 500, "owned".to_string());
    assert_eq!((res.status, text(&res)), (500, "owned".to_string()));
    let res = err_response(&r, 200, vec![1u8, 2, 3]);
    assert_eq!((res.status, res.body), (200, vec![1u8, 2, 3]));
}
