use pipeline_router::pipeline::link::{begin, ErrorFuc, Failure, Linkable, Pipeline, Step, Turn};
use std::cell::Cell;
use std::convert::Infallible;
use std::future::{ready, Future};
use std::time::Duration;

/// Pending work that a test can complete on the spot.
trait Settle {
    type Output;
    fn settle(self) -> Self::Output;
}

impl Settle for Infallible {
    type Output = Infallible;
    fn settle(self) -> Infallible {
        match self {}
    }
}

impl<A: Settle, F: Future> Settle for Turn<A, F> {
    type Output = Turn<A::Output, F::Output>;
    fn settle(self) -> Self::Output {
        match self {
            Turn::Before(earlier) => Turn::Before(earlier.settle()),
            Turn::Here(work) => Turn::Here(wait(work)),
        }
    }
}

fn wait<F: Future>(work: F) -> F::Output {
    tokio::runtime::Builder::new_current_thread()
        .enable_time()
        .build()
        .unwrap()
        .block_on(work)
}

/// Runs `p` on `input` to its end, completing pending work as it comes.
fn run<P>(p: &P, input: P::IN) -> Result<P::OUT, Failure>
where
    P: Pipeline,
    P::Wait: Settle<Output = P::Wake>,
{
    let mut step = p.process(input);
    loop {
        match step {
            Step::Done(r) => return r,
            Step::Pending(wait) => step = p.resume(wait.settle()),
        }
    }
}

fn even(x: i32) -> Result<i32, Failure> {
    if x % 2 == 0 {
        Ok(x)
    } else {
        Err(Failure::transform("odd"))
    }
}

#[test]
fn test_pipeline() {
    let p = begin::<i32>()
        .then_result(|x| match x % 2 {
            0 => Ok(x),
            1 => Err(Failure::transform(
                &std::io::Error::from_raw_os_error(x).to_string(),
            )),
            _ => panic!("no way"),
        })
        .then(|x| {
            println!("{} pass by", x);
            x
        })
        .then_async_result(|x| async move {
            match x % 3 {
                0 => Ok(x),
                1 => Err(Failure::transform("something wrong")),
                _ => panic!("no way"),
            }
        })
        .then_async(|x| async move {
            println!("{} pass by async", x);
            tokio::time::sleep(Duration::from_millis(20)).await;
            x
        });
    let v = run(&p, 12).unwrap();
    assert_eq!(v, 12);
    let v = run(&p, 11).err().unwrap();
    println!("err: {}", v.description());
    assert_eq!(
        v.description(),
        std::io::Error::from_raw_os_error(11).to_string()
    );
    let v = run(&p, 10).err().unwrap();
    println!("err: {}", v.description());
    assert_eq!(v.description(), "something wrong");
}

#[test]
fn handle_differen_err() {
    fn refuse(x: i32) -> Result<i32, Failure> {
        let parsed: Result<i32, Failure> =
            pipeline_router::http::json::decode(&b"adb".to_vec());
        parsed?;
        let read: Result<Vec<u8>, Failure> = Err(Failure::transport("nonono"));
        read?;
        Ok(x)
    }
    let p = begin()
        .then_async_result(|x: i32| async move { refuse(x) })
        .then_result(refuse);
    let r = run(&p, 10);
    let e = r.err().unwrap();
    println!("{}", e.description());
    assert!(matches!(e, Failure::Decode(_)));
    assert_eq!(e.description(), "expected value at line 1 column 1");
}

#[test]
fn begin_is_the_identity() {
    let p = begin::<String>();
    match p.process("as it came".to_string()) {
        Step::Done(Ok(v)) => assert_eq!(v, "as it came"),
        _ => panic!("the empty chain ends at once"),
    }
}

#[test]
fn even_input_passes_a_fallible_stage() {
    let p = begin::<i32>().then_result(even);
    match p.process(4) {
        Step::Done(Ok(v)) => assert_eq!(v, 4),
        _ => panic!("expected the value"),
    }
}

#[test]
fn odd_input_fails_with_its_description() {
    let p = begin::<i32>().then_result(even);
    match p.process(5) {
        Step::Done(Err(e)) => {
            assert!(matches!(e, Failure::Transform(_)));
            assert_eq!(e.description(), "odd");
        }
        _ => panic!("expected the error"),
    }
}

#[test]
fn stages_run_in_the_order_of_linking() {
    let p = begin::<i32>()
        .then(|x| x + 1)
        .then(|x| x * 10)
        .then(|x| format!("<{}>", x));
    assert_eq!(run(&p, 4).unwrap(), "<50>");
}

#[test]
fn no_stage_runs_behind_a_failure() {
    let first = Cell::new(0);
    let second = Cell::new(0);
    let third = Cell::new(0);
    let fourth = Cell::new(0);
    let p = begin::<i32>()
        .then(|x| {
            first.set(first.get() + 1);
            x
        })
        .then_result(|x| {
            second.set(second.get() + 1);
            even(x)
        })
        .then_async(|x| {
            third.set(third.get() + 1);
            ready(x)
        })
        .then(|x| {
            fourth.set(fourth.get() + 1);
            x
        });
    assert_eq!(run(&p, 7).err().unwrap().description(), "odd");
    assert_eq!(
        (first.get(), second.get(), third.get(), fourth.get()),
        (1, 1, 0, 0)
    );
    assert_eq!(run(&p, 8).unwrap(), 8);
    assert_eq!(
        (first.get(), second.get(), third.get(), fourth.get()),
        (2, 2, 1, 1)
    );
}

#[test]
fn the_first_failure_is_the_outcome() {
    let p = begin::<i32>()
        .then_result(|x| {
            if x > 0 {
                Ok(x)
            } else {
                Err(Failure::transform("not positive"))
            }
        })
        .then_result(even);
    assert_eq!(run(&p, -3).err().unwrap().description(), "not positive");
    assert_eq!(run(&p, 3).err().unwrap().description(), "odd");
    assert_eq!(run(&p, 6).unwrap(), 6);
}

#[test]
fn a_parking_stage_waits_for_its_outcome() {
    let after = Cell::new(0);
    let p = begin::<i32>().then_async(|x| ready(x + 1)).then(|x| {
        after.set(after.get() + 1);
        x * 2
    });
    let wait = match p.process(4) {
        Step::Pending(wait) => wait,
        Step::Done(_) => panic!("expected to park"),
    };
    assert_eq!(after.get(), 0);
    let work = match wait {
        Turn::Here(work) => work,
        Turn::Before(_) => panic!("expected the work of the last parking stage"),
    };
    assert_eq!(work.into_inner(), 5);
    match p.resume(Turn::Here(21)) {
        Step::Done(Ok(v)) => assert_eq!(v, 42),
        _ => panic!("expected the value"),
    }
    assert_eq!(after.get(), 1);
}

#[test]
fn a_failed_outcome_ends_the_run() {
    let after = Cell::new(0);
    let p = begin::<i32>()
        .then_async_result(|x| ready(Ok::<i32, Failure>(x)))
        .then(|x| {
            after.set(after.get() + 1);
            x
        });
    assert!(matches!(p.process(1), Step::Pending(Turn::Here(_))));
    match p.resume(Turn::Here(Err(Failure::transport("stream broke")))) {
        Step::Done(Err(e)) => {
            assert!(matches!(e, Failure::Transport(_)));
            assert_eq!(e.description(), "stream broke");
        }
        _ => panic!("expected the error"),
    }
    assert_eq!(after.get(), 0);
}

#[test]
fn a_run_parks_once_for_each_parking_stage() {
    let p = begin::<i32>()
        .then_async(|x| ready(x + 1))
        .then_async(|x| ready(x * 2));
    let first = match p.process(1) {
        Step::Pending(Turn::Before(Turn::Here(work))) => work.into_inner(),
        _ => panic!("expected to park at the first stage"),
    };
    assert_eq!(first, 2);
    let second = match p.resume(Turn::Before(Turn::Here(first))) {
        Step::Pending(Turn::Here(work)) => work.into_inner(),
        _ => panic!("expected to park at the second stage"),
    };
    assert_eq!(second, 4);
    match p.resume(Turn::Here(second)) {
        Step::Done(Ok(v)) => assert_eq!(v, 4),
        _ => panic!("expected the value"),
    }
}

#[test]
fn builders_keep_chain_and_closure() {
    let p = begin::<i32>().then(|x: i32| x + 1);
    assert_eq!((p.next)(1), 2);
    let q = p.then_result(even);
    assert_eq!((q.next.f)(3).err().unwrap().description(), "odd");
    assert_eq!((q.prev.next)(5), 6);
    let e = ErrorFuc::new(|x: i32| x);
    assert_eq!((e.f)(9), 9);
}

#[test]
fn description_is_the_text_of_any_kind() {
    assert_eq!(Failure::transform("a").description(), "a");
    assert_eq!(Failure::decode("b").description(), "b");
    assert_eq!(Failure::transport("c").description(), "c");
    assert!(matches!(Failure::decode("b"), Failure::Decode(_)));
    assert!(matches!(Failure::transport("c"), Failure::Transport(_)));
}
