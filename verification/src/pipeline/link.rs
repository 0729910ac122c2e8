use crate::pipeline::async_connect::AsyncConnect;
use crate::pipeline::connect::Connect;
use core::convert::Infallible;
use core::future::Future;
use core::marker::PhantomData;
use vstd::prelude::*;

verus! {

/// What ends a run early: an error. It is made once, by the stage that fails, and
/// every later stage is skipped; nothing but its text is ever read.
#[derive(Debug)]
pub enum Failure {
    /// A fallible stage refused its input.
    Transform(String),
    /// A payload could not be decoded or encoded.
    Decode(String),
    /// The transport under the pipeline failed.
    Transport(String),
}

impl Failure {
    /// The text that describes the error.
    pub open spec fn text(&self) -> Seq<char> {
        match self {
            Failure::Transform(s) => s@,
            Failure::Decode(s) => s@,
            Failure::Transport(s) => s@,
        }
    }

    /// The error of a stage that refuses its input, with `msg` as its text.
    pub fn transform(msg: &str) -> (e: Failure)
        ensures
            e is Transform,
            e.text() == msg@,
    {
        Failure::Transform(msg.to_owned())
    }

    /// The error of a payload that could not be decoded or encoded.
    pub fn decode(msg: &str) -> (e: Failure)
        ensures
            e is Decode,
            e.text() == msg@,
    {
        Failure::Decode(msg.to_owned())
    }

    /// The error of a transport that failed.
    pub fn transport(msg: &str) -> (e: Failure)
        ensures
            e is Transport,
            e.text() == msg@,
    {
        Failure::Transport(msg.to_owned())
    }

    /// A copy of the error's text.
    pub fn description(&self) -> (s: String)
        ensures
            s@ == self.text(),
    {
        match self {
            Failure::Transform(s) => s.clone(),
            Failure::Decode(s) => s.clone(),
            Failure::Transport(s) => s.clone(),
        }
    }
}

/// How far a run got: to its end, or to pending work.
pub enum Step<W, T> {
    /// The run is over; `T` is what it gave.
    Done(T),
    /// The run is parked on the pending work `W`.
    Pending(W),
}

/// Which stage of a chain something belongs to: the last one, or one before it.
pub enum Turn<A, B> {
    /// It belongs to a stage before the last.
    Before(A),
    /// It belongs to the last stage.
    Here(B),
}

/// A stage's closure, marked as fallible.
pub struct ErrorFuc<F> {
    pub f: F,
}

impl<F> ErrorFuc<F> {
    /// Marks `f` as the closure of a fallible stage.
    pub fn new(f: F) -> (e: Self)
        ensures
            e.f == f,
    {
        ErrorFuc { f }
    }
}

/// Something a further stage can be linked onto. `OUT` is what the new stage
/// receives.
pub trait Linkable: Sized {
    type OUT;

    /// Links a total stage that hands back pending work.
    fn then_async<F, FUT, NXT>(self, f: F) -> (next: AsyncConnect<Self, F>) where
        F: Fn(Self::OUT) -> FUT,
        FUT: Future<Output = NXT>,

        ensures
            next.prev == self,
            next.next == f,
    {
        AsyncConnect { prev: self, next: f }
    }

    /// Links a fallible stage that hands back pending work.
    fn then_async_result<F, FUT, NXT>(self, f: F) -> (next: AsyncConnect<Self, ErrorFuc<F>>) where
        F: Fn(Self::OUT) -> FUT,
        FUT: Future<Output = Result<NXT, Failure>>,

        ensures
            next.prev == self,
            next.next.f == f,
    {
        AsyncConnect { prev: self, next: ErrorFuc::new(f) }
    }

    /// Links a total stage.
    fn then<F, NXT>(self, f: F) -> (next: Connect<Self, F>) where F: Fn(Self::OUT) -> NXT
        ensures
            next.prev == self,
            next.next == f,
    {
        Connect { prev: self, next: f }
    }

    /// Links a fallible stage.
    fn then_result<F, NXT>(self, f: F) -> (next: Connect<Self, ErrorFuc<F>>) where
        F: Fn(Self::OUT) -> Result<NXT, Failure>,

        ensures
            next.prev == self,
            next.next.f == f,
    {
        Connect { prev: self, next: ErrorFuc::new(f) }
    }
}

/// A chain of stages from `IN` to `OUT`.
///
/// A run starts with `process`. It goes through the stages in the order in
/// which they were linked, each stage receiving what the one before it gave,
/// until a stage fails, a stage hands back pending work, or the last stage is
/// done. Pending work parks the run: the caller completes the work and hands
/// its outcome to `resume`, which goes on from the stage that follows.
///
/// A stage that is not reached is not called: the run of a chain whose first
/// stage fails needs nothing of the stages behind it.
///
/// The predicates are the contract of `process` and `resume`. Each has
/// as its default what holds of every implementation that returns on every
/// input; the chains of this library state what they do exactly.
pub trait Pipeline: Linkable {
    type IN;

    /// The pending work that a parked run holds.
    type Wait;

    /// The outcome of pending work, with which a parked run goes on.
    type Wake;

    /// Each stage that `process` reaches on `input` may be called on what it
    /// then receives.
    open spec fn accepts(&self, input: Self::IN) -> bool {
        true
    }

    /// `process` can give `step` on `input`.
    open spec fn starts(&self, input: Self::IN, step: Step<Self::Wait, Result<Self::OUT, Failure>>) -> bool {
        true
    }

    /// Each stage that `resume` reaches from `wake` may be called on what it
    /// then receives.
    open spec fn admits(&self, wake: Self::Wake) -> bool {
        true
    }

    /// `resume` can give `step` on `wake`.
    open spec fn resumes(&self, wake: Self::Wake, step: Step<Self::Wait, Result<Self::OUT, Failure>>) -> bool {
        true
    }

    /// `wake` is an outcome for the stage that handed back `wait`. A run goes
    /// on from the pending work that it parked on with such an outcome.
    open spec fn answers(wait: Self::Wait, wake: Self::Wake) -> bool {
        true
    }

    /// Starts a run on `input` and takes it as far as it goes.
    fn process(&self, input: Self::IN) -> (step: Step<Self::Wait, Result<Self::OUT, Failure>>)
        requires
            self.accepts(input),
        ensures
            self.starts(input, step),
    ;

    /// Goes on with a parked run, from the outcome of its pending work.
    fn resume(&self, wake: Self::Wake) -> (step: Step<Self::Wait, Result<Self::OUT, Failure>>)
        requires
            self.admits(wake),
        ensures
            self.resumes(wake, step),
    ;
}

/// The chain of no stages: a run ends at once, with its input.
pub struct Start<T> {
    pub _p: PhantomData<T>,
}

/// The empty chain over `T`.
pub fn begin<T>() -> (start: Start<T>)
    ensures
        forall|input: T| #[trigger] start.accepts(input),
        forall|input: T, step: Step<Infallible, Result<T, Failure>>| #[trigger]
            start.starts(input, step) <==> step == Step::<Infallible, Result<T, Failure>>::Done(Ok(input)),
{
    Start { _p: PhantomData }
}

impl<IN> Linkable for Start<IN> {
    type OUT = IN;
}

impl<IN> Pipeline for Start<IN> {
    type IN = IN;

    type Wait = Infallible;

    type Wake = Infallible;

    open spec fn accepts(&self, input: IN) -> bool {
        true
    }

    open spec fn starts(&self, input: IN, step: Step<Infallible, Result<IN, Failure>>) -> bool {
        step == Step::<Infallible, Result<IN, Failure>>::Done(Ok(input))
    }

    /// The empty chain never parks, and nothing has the type of an outcome
    /// for it. Were it handed one, it would stay parked on it.
    open spec fn admits(&self, wake: Infallible) -> bool {
        true
    }

    open spec fn resumes(&self, wake: Infallible, step: Step<Infallible, Result<IN, Failure>>) -> bool {
        step == Step::<Infallible, Result<IN, Failure>>::Pending(wake)
    }

    open spec fn answers(wait: Infallible, wake: Infallible) -> bool {
        false
    }

    fn process(&self, input: IN) -> (step: Step<Infallible, Result<IN, Failure>>) {
        Step::Done(Ok(input))
    }

    fn resume(&self, wake: Infallible) -> (step: Step<Infallible, Result<IN, Failure>>) {
        Step::Pending(wake)
    }
}

} // verus!
