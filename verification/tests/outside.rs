use pipeline_router::pipeline::link::{Failure, Linkable, Pipeline, Step, Turn};
use std::convert::Infallible;
use std::future::ready;

/// A chain that was not built from this library's parts.
struct Doubler;

impl Linkable for Doubler {
    type OUT = i32;
}

impl Pipeline for Doubler {
    type IN = i32;
    type Wait = Infallible;
    type Wake = Infallible;

    fn process(&self, input: i32) -> Step<Infallible, Result<i32, Failure>> {
        match input.checked_mul(2) {
            Some(twice) => Step::Done(Ok(twice)),
            None => Step::Done(Err(Failure::transform("too large"))),
        }
    }

    fn resume(&self, wake: Infallible) -> Step<Infallible, Result<i32, Failure>> {
        match wake {}
    }
}

#[test]
fn a_chain_from_outside_links_like_any_other() {
    let p = Doubler.then(|x| x + 1).then_async(|x| ready(x * 10));
    match p.process(4) {
        Step::Pending(Turn::Here(work)) => assert_eq!(work.into_inner(), 90),
        _ => panic!("expected to park"),
    }
    match p.resume(Turn::Here(90)) {
        Step::Done(Ok(v)) => assert_eq!(v, 90),
        _ => panic!("expected the value"),
    }
    match p.process(i32::MAX) {
        Step::Done(Err(e)) => assert_eq!(e.description(), "too large"),
        _ => panic!("expected the error"),
    }
}
