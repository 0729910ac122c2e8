use crate::pipeline::link::{ErrorFuc, Failure, Linkable, Pipeline, Step};
use vstd::prelude::*;

verus! {

/// A chain with one more stage, which returns at once.
///
/// With a plain closure as `next` the stage is total; with the closure inside
/// an `ErrorFuc` it is fallible.
pub struct Connect<P, F> {
    pub prev: P,
    pub next: F,
}

impl<NXT, F, L> Linkable for Connect<L, F> where F: Fn(L::OUT) -> NXT, L: Linkable {
    type OUT = NXT;
}

impl<NXT, F, P> Linkable for Connect<P, ErrorFuc<F>> where
    F: Fn(P::OUT) -> Result<NXT, Failure>,
    P: Linkable,
 {
    type OUT = NXT;
}

/// What a stage that returns at once makes of `before`, the step that the
/// chain ahead of it gave: a value goes through the stage, whose result ends
/// the run; an error and pending work pass. `gives(mid, r)` holds of every
/// result `r` that the stage can make of a value `mid`.
pub open spec fn made<W, A, B>(
    gives: spec_fn(A, Result<B, Failure>) -> bool,
    before: Step<W, Result<A, Failure>>,
    step: Step<W, Result<B, Failure>>,
) -> bool {
    match before {
        Step::Done(Ok(mid)) => step matches Step::Done(r) && gives(mid, r),
        Step::Done(Err(e)) => step == Step::<W, Result<B, Failure>>::Done(Err(e)),
        Step::Pending(wait) => step == Step::<W, Result<B, Failure>>::Pending(wait),
    }
}

/// Whatever `longer` gives, `chain` gives a step of which `longer`'s is made
/// by one more stage that returns at once; `gives(mid, r)` holds of every
/// result `r` that this stage can make of a value `mid`.
pub open spec fn refines<P, Q>(longer: &Q, chain: &P, gives: spec_fn(P::OUT, Result<Q::OUT, Failure>) -> bool) -> bool where
    P: Pipeline,
    Q: Pipeline<IN = P::IN, Wait = P::Wait, Wake = P::Wake>,
 {
    &&& forall|input: P::IN, step: Step<P::Wait, Result<Q::OUT, Failure>>| #[trigger]
        longer.starts(input, step) ==> exists|before: Step<P::Wait, Result<P::OUT, Failure>>| #[trigger]
            chain.starts(input, before) && made(gives, before, step)
    &&& forall|wake: P::Wake, step: Step<P::Wait, Result<Q::OUT, Failure>>| #[trigger]
        longer.resumes(wake, step) ==> exists|before: Step<P::Wait, Result<P::OUT, Failure>>| #[trigger]
            chain.resumes(wake, before) && made(gives, before, step)
    &&& forall|wait: P::Wait, wake: P::Wake| #[trigger] Q::answers(wait, wake) ==> P::answers(wait, wake)
}

/// `longer` is `chain` with one more stage. That stage returns at once, may be
/// called on every value, and `gives(mid, r)` holds of every result `r` that it
/// can make of a value `mid`.
pub open spec fn extends<P, Q>(longer: &Q, chain: &P, gives: spec_fn(P::OUT, Result<Q::OUT, Failure>) -> bool) -> bool where
    P: Pipeline,
    Q: Pipeline<IN = P::IN, Wait = P::Wait, Wake = P::Wake>,
 {
    &&& refines(longer, chain, gives)
    &&& forall|input: P::IN| #[trigger] longer.accepts(input) <==> chain.accepts(input)
    &&& forall|wake: P::Wake| #[trigger] longer.admits(wake) <==> chain.admits(wake)
}

/// `longer` is `chain` with one more stage. That stage returns at once, may be
/// called on the values of which `needs` holds, and `gives(mid, r)` holds of
/// every result `r` that it can make of a value `mid`.
pub open spec fn links<P, Q>(
    longer: &Q,
    chain: &P,
    needs: spec_fn(P::OUT) -> bool,
    gives: spec_fn(P::OUT, Result<Q::OUT, Failure>) -> bool,
) -> bool where P: Pipeline, Q: Pipeline<IN = P::IN, Wait = P::Wait, Wake = P::Wake> {
    &&& refines(longer, chain, gives)
    &&& forall|input: P::IN| #[trigger]
        longer.accepts(input) <==> chain.accepts(input) && forall|mid: P::OUT| #[trigger]
            chain.starts(input, Step::Done(Ok(mid))) ==> needs(mid)
    &&& forall|wake: P::Wake| #[trigger]
        longer.admits(wake) <==> chain.admits(wake) && forall|mid: P::OUT| #[trigger]
            chain.resumes(wake, Step::Done(Ok(mid))) ==> needs(mid)
}

/// The values that the stage `next` may be called on.
pub open spec fn needs_of<A, B, F: Fn(A) -> B>(next: F) -> spec_fn(A) -> bool {
    |mid: A| call_requires(next, (mid,))
}

/// What the total stage `next` can make of a value.
pub open spec fn gives_value<A, B, F: Fn(A) -> B>(next: F) -> spec_fn(A, Result<B, Failure>) -> bool {
    |mid: A, r: Result<B, Failure>| r matches Ok(value) && call_ensures(next, (mid,), value)
}

/// What the fallible stage `next` can make of a value.
pub open spec fn gives_result<A, B, F: Fn(A) -> Result<B, Failure>>(next: F) -> spec_fn(
    A,
    Result<B, Failure>,
) -> bool {
    |mid: A, r: Result<B, Failure>| call_ensures(next, (mid,), r)
}

impl<NXT, F, P> Connect<P, F> where P: Pipeline, F: Fn(P::OUT) -> NXT {
    /// The chain with the stage `next` gives what the chain ahead of it
    /// gives, made over by `next`.
    pub proof fn lemma_refines(&self)
        ensures
            refines(self, &self.prev, gives_value(self.next)),
    {
    }

    /// The chain with the stage `next` is the chain ahead of it with that
    /// stage linked on.
    pub proof fn lemma_links(&self)
        ensures
            links(self, &self.prev, needs_of(self.next), gives_value(self.next)),
    {
    }

    /// A total stage that may be called on every value extends the chain by
    /// what the stage ensures.
    pub proof fn lemma_extends(&self, gives: spec_fn(P::OUT, Result<NXT, Failure>) -> bool)
        requires
            forall|mid: P::OUT| #[trigger] call_requires(self.next, (mid,)),
            forall|mid: P::OUT, value: NXT| #[trigger]
                call_ensures(self.next, (mid,), value) ==> gives(mid, Ok(value)),
        ensures
            extends(self, &self.prev, gives),
    {
    }
}

impl<NXT, F, P> Connect<P, ErrorFuc<F>> where P: Pipeline, F: Fn(P::OUT) -> Result<NXT, Failure> {
    /// The chain with the stage `next` gives what the chain ahead of it
    /// gives, made over by `next`.
    pub proof fn lemma_refines_result(&self)
        ensures
            refines(self, &self.prev, gives_result(self.next.f)),
    {
    }

    /// The chain with the stage `next` is the chain ahead of it with that
    /// stage linked on.
    pub proof fn lemma_links_result(&self)
        ensures
            links(self, &self.prev, needs_of(self.next.f), gives_result(self.next.f)),
    {
    }

    /// A fallible stage that may be called on every value extends the chain
    /// by what the stage ensures.
    pub proof fn lemma_extends_result(&self, gives: spec_fn(P::OUT, Result<NXT, Failure>) -> bool)
        requires
            forall|mid: P::OUT| #[trigger] call_requires(self.next.f, (mid,)),
            forall|mid: P::OUT, r: Result<NXT, Failure>| #[trigger]
                call_ensures(self.next.f, (mid,), r) ==> gives(mid, r),
        ensures
            extends(self, &self.prev, gives),
    {
    }
}

impl<NXT, F, P> Pipeline for Connect<P, F> where P: Pipeline, F: Fn(P::OUT) -> NXT {
    type IN = P::IN;

    type Wait = P::Wait;

    type Wake = P::Wake;

    open spec fn accepts(&self, input: P::IN) -> bool {
        &&& self.prev.accepts(input)
        &&& forall|mid: P::OUT| #[trigger]
            self.prev.starts(input, Step::Done(Ok(mid))) ==> call_requires(self.next, (mid,))
    }

    open spec fn starts(&self, input: P::IN, step: Step<P::Wait, Result<NXT, Failure>>) -> bool {
        exists|before: Step<P::Wait, Result<P::OUT, Failure>>| #[trigger]
            self.prev.starts(input, before) && made(gives_value(self.next), before, step)
    }

    open spec fn admits(&self, wake: P::Wake) -> bool {
        &&& self.prev.admits(wake)
        &&& forall|mid: P::OUT| #[trigger]
            self.prev.resumes(wake, Step::Done(Ok(mid))) ==> call_requires(self.next, (mid,))
    }

    open spec fn resumes(&self, wake: P::Wake, step: Step<P::Wait, Result<NXT, Failure>>) -> bool {
        exists|before: Step<P::Wait, Result<P::OUT, Failure>>| #[trigger]
            self.prev.resumes(wake, before) && made(gives_value(self.next), before, step)
    }

    open spec fn answers(wait: P::Wait, wake: P::Wake) -> bool {
        P::answers(wait, wake)
    }

    fn process(&self, input: P::IN) -> (step: Step<P::Wait, Result<NXT, Failure>>) {
        match self.prev.process(input) {
            Step::Done(Ok(mid)) => Step::Done(Ok((self.next)(mid))),
            Step::Done(Err(e)) => Step::Done(Err(e)),
            Step::Pending(wait) => Step::Pending(wait),
        }
    }

    fn resume(&self, wake: P::Wake) -> (step: Step<P::Wait, Result<NXT, Failure>>) {
        match self.prev.resume(wake) {
            Step::Done(Ok(mid)) => Step::Done(Ok((self.next)(mid))),
            Step::Done(Err(e)) => Step::Done(Err(e)),
            Step::Pending(wait) => Step::Pending(wait),
        }
    }
}

impl<NXT, F, P> Pipeline for Connect<P, ErrorFuc<F>> where
    P: Pipeline,
    F: Fn(P::OUT) -> Result<NXT, Failure>,
 {
    type IN = P::IN;

    type Wait = P::Wait;

    type Wake = P::Wake;

    open spec fn accepts(&self, input: P::IN) -> bool {
        &&& self.prev.accepts(input)
        &&& forall|mid: P::OUT| #[trigger]
            self.prev.starts(input, Step::Done(Ok(mid))) ==> call_requires(self.next.f, (mid,))
    }

    open spec fn starts(&self, input: P::IN, step: Step<P::Wait, Result<NXT, Failure>>) -> bool {
        exists|before: Step<P::Wait, Result<P::OUT, Failure>>| #[trigger]
            self.prev.starts(input, before) && made(gives_result(self.next.f), before, step)
    }

    open spec fn admits(&self, wake: P::Wake) -> bool {
        &&& self.prev.admits(wake)
        &&& forall|mid: P::OUT| #[trigger]
            self.prev.resumes(wake, Step::Done(Ok(mid))) ==> call_requires(self.next.f, (mid,))
    }

    open spec fn resumes(&self, wake: P::Wake, step: Step<P::Wait, Result<NXT, Failure>>) -> bool {
        exists|before: Step<P::Wait, Result<P::OUT, Failure>>| #[trigger]
            self.prev.resumes(wake, before) && made(gives_result(self.next.f), before, step)
    }

    open spec fn answers(wait: P::Wait, wake: P::Wake) -> bool {
        P::answers(wait, wake)
    }

    fn process(&self, input: P::IN) -> (step: Step<P::Wait, Result<NXT, Failure>>) {
        match self.prev.process(input) {
            Step::Done(Ok(mid)) => Step::Done((self.next.f)(mid)),
            Step::Done(Err(e)) => Step::Done(Err(e)),
            Step::Pending(wait) => Step::Pending(wait),
        }
    }

    fn resume(&self, wake: P::Wake) -> (step: Step<P::Wait, Result<NXT, Failure>>) {
        match self.prev.resume(wake) {
            Step::Done(Ok(mid)) => Step::Done((self.next.f)(mid)),
            Step::Done(Err(e)) => Step::Done(Err(e)),
            Step::Pending(wait) => Step::Pending(wait),
        }
    }
}

} // verus!
