use crate::pipeline::connect::needs_of;
use crate::pipeline::link::{ErrorFuc, Failure, Linkable, Pipeline, Step, Turn};
use core::future::Future;
use vstd::prelude::*;

verus! {

/// A chain with one more stage, which hands back pending work.
///
/// The stage's closure is called with what the chain ahead of it gave, and
/// the run parks on what the closure returns. The outcome of that work, which
/// the caller hands to `resume`, is the stage's result.
///
/// With a plain closure as `next` the stage is total; with the closure inside
/// an `ErrorFuc` it is fallible, and the outcome of its work is a `Result`.
pub struct AsyncConnect<P, F> {
    pub prev: P,
    pub next: F,
}

impl<NXT, FUT, F, L> Linkable for AsyncConnect<L, F> where
    F: Fn(L::OUT) -> FUT,
    FUT: Future<Output = NXT>,
    L: Linkable,
 {
    type OUT = NXT;
}

impl<NXT, FUT, F, L> Linkable for AsyncConnect<L, ErrorFuc<F>> where
    F: Fn(L::OUT) -> FUT,
    FUT: Future<Output = Result<NXT, Failure>>,
    L: Linkable,
 {
    type OUT = NXT;
}

/// What a parking stage makes of `before`, the step that the chain ahead of
/// it gave: on a value the run parks on the work that the stage hands back,
/// an error passes, and pending work of an earlier stage stays pending.
/// `hands(mid, work)` holds of all work that the stage can hand back for a
/// value `mid`.
pub open spec fn parked<W, A, B, FUT>(
    hands: spec_fn(A, FUT) -> bool,
    before: Step<W, Result<A, Failure>>,
    step: Step<Turn<W, FUT>, Result<B, Failure>>,
) -> bool {
    match before {
        Step::Done(Ok(mid)) => step matches Step::Pending(Turn::Here(work)) && hands(mid, work),
        Step::Done(Err(e)) => step == Step::<Turn<W, FUT>, Result<B, Failure>>::Done(Err(e)),
        Step::Pending(wait) => step == Step::<Turn<W, FUT>, Result<B, Failure>>::Pending(Turn::Before(wait)),
    }
}

/// `wake` is for the stage that handed back `wait`, where `earlier` says so
/// of the stages ahead of the last.
pub open spec fn answers_turn<W, FUT, K, B>(
    earlier: spec_fn(W, K) -> bool,
    wait: Turn<W, FUT>,
    wake: Turn<K, B>,
) -> bool {
    match (wait, wake) {
        (Turn::Before(wait), Turn::Before(wake)) => earlier(wait, wake),
        (Turn::Here(_), Turn::Here(_)) => true,
        _ => false,
    }
}

/// Whatever `longer` gives, `chain` gives a step of which `longer`'s is made
/// by one more stage that parks: `hands(mid, work)` holds of all work that
/// the stage can hand back for a value `mid`, and a run that is resumed with
/// the outcome `b` of that work is over, with `ends(b)`.
pub open spec fn suspends<P, Q, FUT, B>(
    longer: &Q,
    chain: &P,
    hands: spec_fn(P::OUT, FUT) -> bool,
    ends: spec_fn(B) -> Result<Q::OUT, Failure>,
) -> bool where P: Pipeline, Q: Pipeline<IN = P::IN, Wait = Turn<P::Wait, FUT>, Wake = Turn<P::Wake, B>> {
    &&& forall|input: P::IN, step: Step<Turn<P::Wait, FUT>, Result<Q::OUT, Failure>>| #[trigger]
        longer.starts(input, step) ==> exists|before: Step<P::Wait, Result<P::OUT, Failure>>| #[trigger]
            chain.starts(input, before) && parked(hands, before, step)
    &&& forall|earlier: P::Wake, step: Step<Turn<P::Wait, FUT>, Result<Q::OUT, Failure>>| #[trigger]
        longer.resumes(Turn::Before(earlier), step) ==> exists|before: Step<P::Wait, Result<P::OUT, Failure>>| #[trigger]
            chain.resumes(earlier, before) && parked(hands, before, step)
    &&& forall|b: B, step: Step<Turn<P::Wait, FUT>, Result<Q::OUT, Failure>>| #[trigger]
        longer.resumes(Turn::Here(b), step) ==> step == Step::<Turn<P::Wait, FUT>, Result<Q::OUT, Failure>>::Done(
            ends(b),
        )
    &&& forall|wait: Turn<P::Wait, FUT>, wake: Turn<P::Wake, B>| #[trigger]
        Q::answers(wait, wake) ==> answers_turn(|w: P::Wait, k: P::Wake| P::answers(w, k), wait, wake)
}

/// `longer` is `chain` with one more stage, which parks. That stage may be
/// called on the values of which `needs` holds, `hands(mid, work)` holds of
/// all work that it can hand back for a value `mid`, and a run that is
/// resumed with the outcome `b` of that work is over, with `ends(b)`.
pub open spec fn links_parking<P, Q, FUT, B>(
    longer: &Q,
    chain: &P,
    needs: spec_fn(P::OUT) -> bool,
    hands: spec_fn(P::OUT, FUT) -> bool,
    ends: spec_fn(B) -> Result<Q::OUT, Failure>,
) -> bool where P: Pipeline, Q: Pipeline<IN = P::IN, Wait = Turn<P::Wait, FUT>, Wake = Turn<P::Wake, B>> {
    &&& suspends(longer, chain, hands, ends)
    &&& forall|input: P::IN| #[trigger]
        longer.accepts(input) <==> chain.accepts(input) && forall|mid: P::OUT| #[trigger]
            chain.starts(input, Step::Done(Ok(mid))) ==> needs(mid)
    &&& forall|earlier: P::Wake| #[trigger]
        longer.admits(Turn::Before(earlier)) <==> chain.admits(earlier) && forall|mid: P::OUT| #[trigger]
            chain.resumes(earlier, Step::Done(Ok(mid))) ==> needs(mid)
    &&& forall|b: B| #[trigger] longer.admits(Turn::Here(b))
}

/// The work that the stage `next` can hand back for a value.
pub open spec fn hands_work<A, FUT, F: Fn(A) -> FUT>(next: F) -> spec_fn(A, FUT) -> bool {
    |mid: A, work: FUT| call_ensures(next, (mid,), work)
}

/// The end of a run that is resumed with the outcome of a total stage's
/// work: the outcome is the value.
pub open spec fn ends_with_value<B>() -> spec_fn(B) -> Result<B, Failure> {
    |b: B| Ok::<B, Failure>(b)
}

/// The end of a run that is resumed with the outcome of a fallible stage's
/// work: the outcome is the result.
pub open spec fn ends_with_result<B>() -> spec_fn(Result<B, Failure>) -> Result<B, Failure> {
    |b: Result<B, Failure>| b
}

impl<NXT, FUT, F, P> AsyncConnect<P, F> where P: Pipeline, F: Fn(P::OUT) -> FUT, FUT: Future<Output = NXT> {
    /// The chain with the stage `next` is the chain ahead of it with that
    /// stage linked on.
    pub proof fn lemma_links(&self)
        ensures
            links_parking(
                self,
                &self.prev,
                needs_of(self.next),
                hands_work(self.next),
                ends_with_value::<NXT>(),
            ),
    {
    }

    /// The chain with the stage `next` gives what the chain ahead of it
    /// gives, until that is a value: on that value it parks.
    pub proof fn lemma_suspends(&self)
        ensures
            suspends(self, &self.prev, hands_work(self.next), ends_with_value::<NXT>()),
    {
    }
}

impl<NXT, FUT, F, P> AsyncConnect<P, ErrorFuc<F>> where
    P: Pipeline,
    F: Fn(P::OUT) -> FUT,
    FUT: Future<Output = Result<NXT, Failure>>,
 {
    /// The chain with the stage `next` is the chain ahead of it with that
    /// stage linked on.
    pub proof fn lemma_links_result(&self)
        ensures
            links_parking(
                self,
                &self.prev,
                needs_of(self.next.f),
                hands_work(self.next.f),
                ends_with_result::<NXT>(),
            ),
    {
    }

    /// The chain with the stage `next` gives what the chain ahead of it
    /// gives, until that is a value: on that value it parks.
    pub proof fn lemma_suspends_result(&self)
        ensures
            suspends(self, &self.prev, hands_work(self.next.f), ends_with_result::<NXT>()),
    {
    }
}

impl<NXT, FUT, F, P> Pipeline for AsyncConnect<P, F> where
    P: Pipeline,
    F: Fn(P::OUT) -> FUT,
    FUT: Future<Output = NXT>,
 {
    type IN = P::IN;

    type Wait = Turn<P::Wait, FUT>;

    type Wake = Turn<P::Wake, NXT>;

    open spec fn accepts(&self, input: P::IN) -> bool {
        &&& self.prev.accepts(input)
        &&& forall|mid: P::OUT| #[trigger]
            self.prev.starts(input, Step::Done(Ok(mid))) ==> call_requires(self.next, (mid,))
    }

    open spec fn starts(&self, input: P::IN, step: Step<Turn<P::Wait, FUT>, Result<NXT, Failure>>) -> bool {
        exists|before: Step<P::Wait, Result<P::OUT, Failure>>| #[trigger]
            self.prev.starts(input, before) && parked(hands_work(self.next), before, step)
    }

    open spec fn admits(&self, wake: Turn<P::Wake, NXT>) -> bool {
        match wake {
            Turn::Before(earlier) => {
                &&& self.prev.admits(earlier)
                &&& forall|mid: P::OUT| #[trigger]
                    self.prev.resumes(earlier, Step::Done(Ok(mid))) ==> call_requires(self.next, (mid,))
            },
            Turn::Here(_) => true,
        }
    }

    open spec fn resumes(&self, wake: Turn<P::Wake, NXT>, step: Step<Turn<P::Wait, FUT>, Result<NXT, Failure>>) -> bool {
        match wake {
            Turn::Before(earlier) => exists|before: Step<P::Wait, Result<P::OUT, Failure>>| #[trigger]
                self.prev.resumes(earlier, before) && parked(hands_work(self.next), before, step),
            Turn::Here(value) => step == Step::<Turn<P::Wait, FUT>, Result<NXT, Failure>>::Done(Ok(value)),
        }
    }

    open spec fn answers(wait: Turn<P::Wait, FUT>, wake: Turn<P::Wake, NXT>) -> bool {
        answers_turn(|w: P::Wait, k: P::Wake| P::answers(w, k), wait, wake)
    }

    fn process(&self, input: P::IN) -> (step: Step<Turn<P::Wait, FUT>, Result<NXT, Failure>>) {
        match self.prev.process(input) {
            Step::Done(Ok(mid)) => Step::Pending(Turn::Here((self.next)(mid))),
            Step::Done(Err(e)) => Step::Done(Err(e)),
            Step::Pending(wait) => Step::Pending(Turn::Before(wait)),
        }
    }

    fn resume(&self, wake: Turn<P::Wake, NXT>) -> (step: Step<Turn<P::Wait, FUT>, Result<NXT, Failure>>) {
        match wake {
            Turn::Before(earlier) => match self.prev.resume(earlier) {
                Step::Done(Ok(mid)) => Step::Pending(Turn::Here((self.next)(mid))),
                Step::Done(Err(e)) => Step::Done(Err(e)),
                Step::Pending(wait) => Step::Pending(Turn::Before(wait)),
            },
            Turn::Here(value) => Step::Done(Ok(value)),
        }
    }
}

impl<NXT, FUT, F, P> Pipeline for AsyncConnect<P, ErrorFuc<F>> where
    P: Pipeline,
    F: Fn(P::OUT) -> FUT,
    FUT: Future<Output = Result<NXT, Failure>>,
 {
    type IN = P::IN;

    type Wait = Turn<P::Wait, FUT>;

    type Wake = Turn<P::Wake, Result<NXT, Failure>>;

    open spec fn accepts(&self, input: P::IN) -> bool {
        &&& self.prev.accepts(input)
        &&& forall|mid: P::OUT| #[trigger]
            self.prev.starts(input, Step::Done(Ok(mid))) ==> call_requires(self.next.f, (mid,))
    }

    open spec fn starts(&self, input: P::IN, step: Step<Turn<P::Wait, FUT>, Result<NXT, Failure>>) -> bool {
        exists|before: Step<P::Wait, Result<P::OUT, Failure>>| #[trigger]
            self.prev.starts(input, before) && parked(hands_work(self.next.f), before, step)
    }

    open spec fn admits(&self, wake: Turn<P::Wake, Result<NXT, Failure>>) -> bool {
        match wake {
            Turn::Before(earlier) => {
                &&& self.prev.admits(earlier)
                &&& forall|mid: P::OUT| #[trigger]
                    self.prev.resumes(earlier, Step::Done(Ok(mid))) ==> call_requires(self.next.f, (mid,))
            },
            Turn::Here(_) => true,
        }
    }

    open spec fn resumes(
        &self,
        wake: Turn<P::Wake, Result<NXT, Failure>>,
        step: Step<Turn<P::Wait, FUT>, Result<NXT, Failure>>,
    ) -> bool {
        match wake {
            Turn::Before(earlier) => exists|before: Step<P::Wait, Result<P::OUT, Failure>>| #[trigger]
                self.prev.resumes(earlier, before) && parked(hands_work(self.next.f), before, step),
            Turn::Here(result) => step == Step::<Turn<P::Wait, FUT>, Result<NXT, Failure>>::Done(result),
        }
    }

    open spec fn answers(wait: Turn<P::Wait, FUT>, wake: Turn<P::Wake, Result<NXT, Failure>>) -> bool {
        answers_turn(|w: P::Wait, k: P::Wake| P::answers(w, k), wait, wake)
    }

    fn process(&self, input: P::IN) -> (step: Step<Turn<P::Wait, FUT>, Result<NXT, Failure>>) {
        match self.prev.process(input) {
            Step::Done(Ok(mid)) => Step::Pending(Turn::Here((self.next.f)(mid))),
            Step::Done(Err(e)) => Step::Done(Err(e)),
            Step::Pending(wait) => Step::Pending(Turn::Before(wait)),
        }
    }

    fn resume(&self, wake: Turn<P::Wake, Result<NXT, Failure>>) -> (step: Step<
        Turn<P::Wait, FUT>,
        Result<NXT, Failure>,
    >) {
        match wake {
            Turn::Before(earlier) => match self.prev.resume(earlier) {
                Step::Done(Ok(mid)) => Step::Pending(Turn::Here((self.next.f)(mid))),
                Step::Done(Err(e)) => Step::Done(Err(e)),
                Step::Pending(wait) => Step::Pending(Turn::Before(wait)),
            },
            Turn::Here(result) => Step::Done(result),
        }
    }
}

} // verus!
