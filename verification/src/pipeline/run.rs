use crate::pipeline::connect::{
    gives_result, gives_value, links, made, refines, Connect,
};
use crate::pipeline::async_connect::{
    ends_with_result, ends_with_value, hands_work, links_parking, parked, suspends,
    AsyncConnect,
};
use crate::pipeline::link::{ErrorFuc, Failure, Pipeline, Start, Step, Turn};
use core::future::Future;
use vstd::prelude::*;

verus! {

/// From `step` a run of `p` gets to its end with `r`, through `wakes`: the
/// outcomes that it is resumed with, one for each time that it parks.
pub open spec fn ends_in<P: Pipeline>(
    p: &P,
    step: Step<P::Wait, Result<P::OUT, Failure>>,
    wakes: Seq<P::Wake>,
    r: Result<P::OUT, Failure>,
) -> bool
    decreases wakes.len(),
{
    if wakes.len() == 0 {
        step == Step::<P::Wait, Result<P::OUT, Failure>>::Done(r)
    } else {
        &&& step matches Step::Pending(wait)
        &&& P::answers(wait, wakes[0])
        &&& exists|next: Step<P::Wait, Result<P::OUT, Failure>>| #[trigger]
            p.resumes(wakes[0], next) && ends_in(p, next, wakes.drop_first(), r)
    }
}

/// A run of `p` on `input` that is resumed with `wakes` can end with `r`.
pub open spec fn runs<P: Pipeline>(p: &P, input: P::IN, wakes: Seq<P::Wake>, r: Result<P::OUT, Failure>) -> bool {
    exists|first: Step<P::Wait, Result<P::OUT, Failure>>| #[trigger]
        p.starts(input, first) && ends_in(p, first, wakes, r)
}

/// A run of `p` on `input` can end with `r`.
pub open spec fn outcome<P: Pipeline>(p: &P, input: P::IN, r: Result<P::OUT, Failure>) -> bool {
    exists|wakes: Seq<P::Wake>| runs(p, input, wakes, r)
}

/// What the last stage makes of `before`, the end of the run ahead of it: an
/// error passes, and of a value `gives` holds with the result.
pub open spec fn made_of<A, B>(
    gives: spec_fn(A, Result<B, Failure>) -> bool,
    before: Result<A, Failure>,
    r: Result<B, Failure>,
) -> bool {
    match before {
        Ok(mid) => gives(mid, r),
        Err(e) => r == Err::<B, Failure>(e),
    }
}

/// Step by step, a run of `longer` is a run of `chain` with the same
/// outcomes of pending work, whose end goes through the one more stage.
proof fn lemma_ends_in_refined<P, Q>(
    longer: &Q,
    chain: &P,
    gives: spec_fn(P::OUT, Result<Q::OUT, Failure>) -> bool,
    before: Step<P::Wait, Result<P::OUT, Failure>>,
    step: Step<P::Wait, Result<Q::OUT, Failure>>,
    wakes: Seq<P::Wake>,
    r: Result<Q::OUT, Failure>,
) -> (end: Result<P::OUT, Failure>) where P: Pipeline, Q: Pipeline<IN = P::IN, Wait = P::Wait, Wake = P::Wake>
    requires
        refines(longer, chain, gives),
        made(gives, before, step),
        ends_in(longer, step, wakes, r),
    ensures
        ends_in(chain, before, wakes, end),
        made_of(gives, end, r),
    decreases wakes.len(),
{
    if wakes.len() == 0 {
        before->Done_0
    } else {
        let next = choose|next: Step<P::Wait, Result<Q::OUT, Failure>>| #[trigger]
            longer.resumes(wakes[0], next) && ends_in(longer, next, wakes.drop_first(), r);
        let ahead = choose|ahead: Step<P::Wait, Result<P::OUT, Failure>>| #[trigger]
            chain.resumes(wakes[0], ahead) && made(gives, ahead, next);
        lemma_ends_in_refined(longer, chain, gives, ahead, next, wakes.drop_first(), r)
    }
}

/// The end of a run of a chain with one more stage that returns at once: the
/// error of the run ahead of the stage, or what the stage makes of the value
/// that this run ends with.
pub proof fn lemma_outcome_refined<P, Q>(
    longer: &Q,
    chain: &P,
    gives: spec_fn(P::OUT, Result<Q::OUT, Failure>) -> bool,
    input: P::IN,
    r: Result<Q::OUT, Failure>,
) where P: Pipeline, Q: Pipeline<IN = P::IN, Wait = P::Wait, Wake = P::Wake>
    requires
        refines(longer, chain, gives),
        outcome(longer, input, r),
    ensures
        exists|before: Result<P::OUT, Failure>| #[trigger] outcome(chain, input, before) && made_of(gives, before, r),
{
    let wakes = choose|wakes: Seq<P::Wake>| runs(longer, input, wakes, r);
    let first = choose|first: Step<P::Wait, Result<Q::OUT, Failure>>| #[trigger]
        longer.starts(input, first) && ends_in(longer, first, wakes, r);
    let ahead = choose|ahead: Step<P::Wait, Result<P::OUT, Failure>>| #[trigger]
        chain.starts(input, ahead) && made(gives, ahead, first);
    let end = lemma_ends_in_refined(longer, chain, gives, ahead, first, wakes, r);
    assert(runs(chain, input, wakes, end));
    assert(outcome(chain, input, end));
}

/// `longer` gives every step that one more stage, which returns at once, can
/// make of a step that `chain` gives; `gives(mid, r)` holds of the results
/// `r` that the stage can make of a value `mid`, and of no others.
pub open spec fn covers<P, Q>(longer: &Q, chain: &P, gives: spec_fn(P::OUT, Result<Q::OUT, Failure>) -> bool) -> bool where
    P: Pipeline,
    Q: Pipeline<IN = P::IN, Wait = P::Wait, Wake = P::Wake>,
 {
    &&& forall|
        input: P::IN,
        before: Step<P::Wait, Result<P::OUT, Failure>>,
        step: Step<P::Wait, Result<Q::OUT, Failure>>,
    |
        #![trigger chain.starts(input, before), made(gives, before, step)]
        chain.starts(input, before) && made(gives, before, step) ==> longer.starts(input, step)
    &&& forall|
        wake: P::Wake,
        before: Step<P::Wait, Result<P::OUT, Failure>>,
        step: Step<P::Wait, Result<Q::OUT, Failure>>,
    |
        #![trigger chain.resumes(wake, before), made(gives, before, step)]
        chain.resumes(wake, before) && made(gives, before, step) ==> longer.resumes(wake, step)
    &&& forall|wait: P::Wait, wake: P::Wake| #[trigger] P::answers(wait, wake) ==> Q::answers(wait, wake)
}

/// Step by step, a run of `chain` whose end goes through one more stage is a
/// run of `longer`.
proof fn lemma_ends_in_covered<P, Q>(
    longer: &Q,
    chain: &P,
    gives: spec_fn(P::OUT, Result<Q::OUT, Failure>) -> bool,
    before: Step<P::Wait, Result<P::OUT, Failure>>,
    wakes: Seq<P::Wake>,
    end: Result<P::OUT, Failure>,
    r: Result<Q::OUT, Failure>,
) -> (step: Step<P::Wait, Result<Q::OUT, Failure>>) where
    P: Pipeline,
    Q: Pipeline<IN = P::IN, Wait = P::Wait, Wake = P::Wake>,

    requires
        covers(longer, chain, gives),
        ends_in(chain, before, wakes, end),
        made_of(gives, end, r),
    ensures
        made(gives, before, step),
        ends_in(longer, step, wakes, r),
    decreases wakes.len(),
{
    if wakes.len() == 0 {
        Step::Done(r)
    } else {
        let ahead = choose|ahead: Step<P::Wait, Result<P::OUT, Failure>>| #[trigger]
            chain.resumes(wakes[0], ahead) && ends_in(chain, ahead, wakes.drop_first(), end);
        let next = lemma_ends_in_covered(longer, chain, gives, ahead, wakes.drop_first(), end, r);
        assert(chain.resumes(wakes[0], ahead) && made(gives, ahead, next));
        assert(longer.resumes(wakes[0], next));
        assert(P::answers(before->Pending_0, wakes[0]));
        Step::Pending(before->Pending_0)
    }
}

/// What one more stage, which returns at once, can make of an end of a run
/// of `chain` is an end of a run of `longer`.
pub proof fn lemma_outcome_covered<P, Q>(
    longer: &Q,
    chain: &P,
    gives: spec_fn(P::OUT, Result<Q::OUT, Failure>) -> bool,
    input: P::IN,
    before: Result<P::OUT, Failure>,
    r: Result<Q::OUT, Failure>,
) where P: Pipeline, Q: Pipeline<IN = P::IN, Wait = P::Wait, Wake = P::Wake>
    requires
        covers(longer, chain, gives),
        outcome(chain, input, before),
        made_of(gives, before, r),
    ensures
        outcome(longer, input, r),
{
    let wakes = choose|wakes: Seq<P::Wake>| runs(chain, input, wakes, before);
    let ahead = choose|ahead: Step<P::Wait, Result<P::OUT, Failure>>| #[trigger]
        chain.starts(input, ahead) && ends_in(chain, ahead, wakes, before);
    let first = lemma_ends_in_covered(longer, chain, gives, ahead, wakes, before, r);
    assert(chain.starts(input, ahead) && made(gives, ahead, first));
    assert(longer.starts(input, first));
    assert(runs(longer, input, wakes, r));
}

/// `step` is `before`, which is no value, handed on as it is.
pub open spec fn passes<W, A, B>(before: Step<W, Result<A, Failure>>, step: Step<W, Result<B, Failure>>) -> bool {
    match before {
        Step::Done(Ok(_)) => false,
        Step::Done(Err(e)) => step == Step::<W, Result<B, Failure>>::Done(Err(e)),
        Step::Pending(wait) => step == Step::<W, Result<B, Failure>>::Pending(wait),
    }
}

/// `step` is `before`, which is no value, handed on as it is by a stage that
/// parks.
pub open spec fn passes_parking<W, FUT, A, B>(
    before: Step<W, Result<A, Failure>>,
    step: Step<Turn<W, FUT>, Result<B, Failure>>,
) -> bool {
    match before {
        Step::Done(Ok(_)) => false,
        Step::Done(Err(e)) => step == Step::<Turn<W, FUT>, Result<B, Failure>>::Done(Err(e)),
        Step::Pending(wait) => step == Step::<Turn<W, FUT>, Result<B, Failure>>::Pending(Turn::Before(wait)),
    }
}

/// No stage is called behind a failure. Where the chain ahead of the last
/// stage gives no value on `input`, the chain with that stage accepts `input`
/// whatever the stage needs, and it gives what the chain ahead gave: the
/// error, or the pending work of an earlier stage.
pub proof fn lemma_not_reached<P, Q>(
    longer: &Q,
    chain: &P,
    needs: spec_fn(P::OUT) -> bool,
    gives: spec_fn(P::OUT, Result<Q::OUT, Failure>) -> bool,
    input: P::IN,
) where P: Pipeline, Q: Pipeline<IN = P::IN, Wait = P::Wait, Wake = P::Wake>
    requires
        links(longer, chain, needs, gives),
        chain.accepts(input),
        forall|mid: P::OUT| !#[trigger] chain.starts(input, Step::Done(Ok(mid))),
    ensures
        longer.accepts(input),
        forall|step: Step<P::Wait, Result<Q::OUT, Failure>>| #[trigger]
            longer.starts(input, step) ==> exists|before: Step<P::Wait, Result<P::OUT, Failure>>| #[trigger]
                chain.starts(input, before) && passes(before, step),
{
    assert forall|step: Step<P::Wait, Result<Q::OUT, Failure>>| #[trigger]
        longer.starts(input, step) implies exists|before: Step<P::Wait, Result<P::OUT, Failure>>| #[trigger]
        chain.starts(input, before) && passes(before, step) by {
        let before = choose|before: Step<P::Wait, Result<P::OUT, Failure>>| #[trigger]
            chain.starts(input, before) && made(gives, before, step);
        if let Step::Done(Ok(mid)) = before {
            assert(chain.starts(input, Step::Done(Ok(mid))));
        }
        assert(chain.starts(input, before) && passes(before, step));
    }
}

/// No stage is called behind a failure, after parking either. Where the
/// chain ahead of the last stage gives no value on `wake`, the chain with
/// that stage admits `wake` whatever the stage needs, and it gives what the
/// chain ahead gave.
pub proof fn lemma_not_reached_again<P, Q>(
    longer: &Q,
    chain: &P,
    needs: spec_fn(P::OUT) -> bool,
    gives: spec_fn(P::OUT, Result<Q::OUT, Failure>) -> bool,
    wake: P::Wake,
) where P: Pipeline, Q: Pipeline<IN = P::IN, Wait = P::Wait, Wake = P::Wake>
    requires
        links(longer, chain, needs, gives),
        chain.admits(wake),
        forall|mid: P::OUT| !#[trigger] chain.resumes(wake, Step::Done(Ok(mid))),
    ensures
        longer.admits(wake),
        forall|step: Step<P::Wait, Result<Q::OUT, Failure>>| #[trigger]
            longer.resumes(wake, step) ==> exists|before: Step<P::Wait, Result<P::OUT, Failure>>| #[trigger]
                chain.resumes(wake, before) && passes(before, step),
{
    assert forall|step: Step<P::Wait, Result<Q::OUT, Failure>>| #[trigger]
        longer.resumes(wake, step) implies exists|before: Step<P::Wait, Result<P::OUT, Failure>>| #[trigger]
        chain.resumes(wake, before) && passes(before, step) by {
        let before = choose|before: Step<P::Wait, Result<P::OUT, Failure>>| #[trigger]
            chain.resumes(wake, before) && made(gives, before, step);
        if let Step::Done(Ok(mid)) = before {
            assert(chain.resumes(wake, Step::Done(Ok(mid))));
        }
        assert(chain.resumes(wake, before) && passes(before, step));
    }
}

/// No parking stage is called behind a failure. Where the chain ahead of the
/// last stage gives no value on `input`, the chain with that stage accepts
/// `input` whatever the stage needs, and it gives what the chain ahead gave.
pub proof fn lemma_parking_not_reached<P, Q, FUT, B>(
    longer: &Q,
    chain: &P,
    needs: spec_fn(P::OUT) -> bool,
    hands: spec_fn(P::OUT, FUT) -> bool,
    ends: spec_fn(B) -> Result<Q::OUT, Failure>,
    input: P::IN,
) where P: Pipeline, Q: Pipeline<IN = P::IN, Wait = Turn<P::Wait, FUT>, Wake = Turn<P::Wake, B>>
    requires
        links_parking(longer, chain, needs, hands, ends),
        chain.accepts(input),
        forall|mid: P::OUT| !#[trigger] chain.starts(input, Step::Done(Ok(mid))),
    ensures
        longer.accepts(input),
        forall|step: Step<Turn<P::Wait, FUT>, Result<Q::OUT, Failure>>| #[trigger]
            longer.starts(input, step) ==> exists|before: Step<P::Wait, Result<P::OUT, Failure>>| #[trigger]
                chain.starts(input, before) && passes_parking(before, step),
{
    assert forall|step: Step<Turn<P::Wait, FUT>, Result<Q::OUT, Failure>>| #[trigger]
        longer.starts(input, step) implies exists|before: Step<P::Wait, Result<P::OUT, Failure>>| #[trigger]
        chain.starts(input, before) && passes_parking(before, step) by {
        let before = choose|before: Step<P::Wait, Result<P::OUT, Failure>>| #[trigger]
            chain.starts(input, before) && parked(hands, before, step);
        if let Step::Done(Ok(mid)) = before {
            assert(chain.starts(input, Step::Done(Ok(mid))));
        }
        assert(chain.starts(input, before) && passes_parking(before, step));
    }
}

/// No parking stage is called behind a failure, after parking either. Where
/// the chain ahead of the last stage gives no value on `earlier`, the chain
/// with that stage admits that outcome whatever the stage needs, and it
/// gives what the chain ahead gave.
pub proof fn lemma_parking_not_reached_again<P, Q, FUT, B>(
    longer: &Q,
    chain: &P,
    needs: spec_fn(P::OUT) -> bool,
    hands: spec_fn(P::OUT, FUT) -> bool,
    ends: spec_fn(B) -> Result<Q::OUT, Failure>,
    earlier: P::Wake,
) where P: Pipeline, Q: Pipeline<IN = P::IN, Wait = Turn<P::Wait, FUT>, Wake = Turn<P::Wake, B>>
    requires
        links_parking(longer, chain, needs, hands, ends),
        chain.admits(earlier),
        forall|mid: P::OUT| !#[trigger] chain.resumes(earlier, Step::Done(Ok(mid))),
    ensures
        longer.admits(Turn::Before(earlier)),
        forall|step: Step<Turn<P::Wait, FUT>, Result<Q::OUT, Failure>>| #[trigger]
            longer.resumes(Turn::Before(earlier), step) ==> exists|before: Step<P::Wait, Result<P::OUT, Failure>>| #[trigger]
                chain.resumes(earlier, before) && passes_parking(before, step),
{
    assert forall|step: Step<Turn<P::Wait, FUT>, Result<Q::OUT, Failure>>| #[trigger]
        longer.resumes(Turn::Before(earlier), step) implies exists|
        before: Step<P::Wait, Result<P::OUT, Failure>>,
    | #[trigger] chain.resumes(earlier, before) && passes_parking(before, step) by {
        let before = choose|before: Step<P::Wait, Result<P::OUT, Failure>>| #[trigger]
            chain.resumes(earlier, before) && parked(hands, before, step);
        if let Step::Done(Ok(mid)) = before {
            assert(chain.resumes(earlier, Step::Done(Ok(mid))));
        }
        assert(chain.resumes(earlier, before) && passes_parking(before, step));
    }
}

/// A run of the empty chain ends with its input, and with nothing else.
pub proof fn lemma_outcome_of_start<T>(start: &Start<T>, input: T, r: Result<T, Failure>)
    ensures
        outcome(start, input, r) <==> r == Ok::<T, Failure>(input),
{
    let done = Step::<core::convert::Infallible, Result<T, Failure>>::Done(Ok(input));
    if r == Ok::<T, Failure>(input) {
        assert(start.starts(input, done));
        assert(ends_in(start, done, Seq::empty(), r));
        assert(runs(start, input, Seq::empty(), r));
    }
    if outcome(start, input, r) {
        let wakes = choose|wakes: Seq<core::convert::Infallible>| runs(start, input, wakes, r);
        assert(runs(start, input, wakes, r));
    }
}

impl<NXT, F, P> Connect<P, F> where P: Pipeline, F: Fn(P::OUT) -> NXT {
    /// The chain with the stage `next` gives all that `next` can make of
    /// what the chain ahead of it gives.
    pub proof fn lemma_covers(&self)
        ensures
            covers(self, &self.prev, gives_value(self.next)),
    {
    }

    /// The ends of the runs of a chain whose last stage is total and returns
    /// at once: the errors that the run ahead of the stage can end with, and
    /// the values that the stage can make of the values that this run can end
    /// with.
    pub proof fn lemma_outcome(&self, input: P::IN, r: Result<NXT, Failure>)
        ensures
            outcome(self, input, r) <==> match r {
                Ok(value) => exists|mid: P::OUT| #[trigger]
                    outcome(&self.prev, input, Ok(mid)) && call_ensures(self.next, (mid,), value),
                Err(e) => outcome(&self.prev, input, Err(e)),
            },
    {
        if outcome(self, input, r) {
            self.lemma_refines();
            lemma_outcome_refined(self, &self.prev, gives_value(self.next), input, r);
            let before = choose|before: Result<P::OUT, Failure>| #[trigger]
                outcome(&self.prev, input, before) && made_of(gives_value(self.next), before, r);
            if before is Ok {
                assert(outcome(&self.prev, input, Ok(before->Ok_0)));
            }
        }
        if exists|before: Result<P::OUT, Failure>| #[trigger]
            outcome(&self.prev, input, before) && made_of(gives_value(self.next), before, r) {
            let before = choose|before: Result<P::OUT, Failure>| #[trigger]
                outcome(&self.prev, input, before) && made_of(gives_value(self.next), before, r);
            self.lemma_covers();
            lemma_outcome_covered(self, &self.prev, gives_value(self.next), input, before, r);
        }
        match r {
            Ok(value) => {
                if exists|mid: P::OUT| #[trigger]
                    outcome(&self.prev, input, Ok(mid)) && call_ensures(self.next, (mid,), value) {
                    let mid = choose|mid: P::OUT| #[trigger]
                        outcome(&self.prev, input, Ok(mid)) && call_ensures(self.next, (mid,), value);
                    assert(outcome(&self.prev, input, Ok(mid)) && made_of(gives_value(self.next), Ok(mid), r));
                }
            },
            Err(e) => {
                if outcome(&self.prev, input, Err(e)) {
                    assert(outcome(&self.prev, input, Err(e)) && made_of(
                        gives_value(self.next),
                        Err::<P::OUT, Failure>(e),
                        r,
                    ));
                }
            },
        }
    }
}

impl<NXT, F, P> Connect<P, ErrorFuc<F>> where P: Pipeline, F: Fn(P::OUT) -> Result<NXT, Failure> {
    /// The chain with the stage `next` gives all that `next` can make of
    /// what the chain ahead of it gives.
    pub proof fn lemma_covers_result(&self)
        ensures
            covers(self, &self.prev, gives_result(self.next.f)),
    {
    }

    /// The ends of the runs of a chain whose last stage is fallible and
    /// returns at once: the errors that the run ahead of the stage can end
    /// with, and what the stage can make of the values that this run can end
    /// with.
    pub proof fn lemma_outcome_result(&self, input: P::IN, r: Result<NXT, Failure>)
        ensures
            outcome(self, input, r) <==> (r matches Err(e) && outcome(&self.prev, input, Err(e))) || exists|
                mid: P::OUT,
            | #[trigger] outcome(&self.prev, input, Ok(mid)) && call_ensures(self.next.f, (mid,), r),
    {
        if outcome(self, input, r) {
            self.lemma_refines_result();
            lemma_outcome_refined(self, &self.prev, gives_result(self.next.f), input, r);
            let before = choose|before: Result<P::OUT, Failure>| #[trigger]
                outcome(&self.prev, input, before) && made_of(gives_result(self.next.f), before, r);
            if before is Ok {
                assert(outcome(&self.prev, input, Ok(before->Ok_0)));
            }
        }
        if exists|before: Result<P::OUT, Failure>| #[trigger]
            outcome(&self.prev, input, before) && made_of(gives_result(self.next.f), before, r) {
            let before = choose|before: Result<P::OUT, Failure>| #[trigger]
                outcome(&self.prev, input, before) && made_of(gives_result(self.next.f), before, r);
            self.lemma_covers_result();
            lemma_outcome_covered(self, &self.prev, gives_result(self.next.f), input, before, r);
        }
        if r matches Err(e) && outcome(&self.prev, input, Err(e)) {
            assert(outcome(&self.prev, input, Err(r->Err_0)) && made_of(
                gives_result(self.next.f),
                Err::<P::OUT, Failure>(r->Err_0),
                r,
            ));
        }
        if exists|mid: P::OUT| #[trigger]
            outcome(&self.prev, input, Ok(mid)) && call_ensures(self.next.f, (mid,), r) {
            let mid = choose|mid: P::OUT| #[trigger]
                outcome(&self.prev, input, Ok(mid)) && call_ensures(self.next.f, (mid,), r);
            assert(outcome(&self.prev, input, Ok(mid)) && made_of(gives_result(self.next.f), Ok(mid), r));
        }
    }
}

/// What a parking stage makes of `before`, the end of the run ahead of it:
/// an error passes, and after a value the run ends as `ends` says, with the
/// outcome of work that the stage handed back for the value.
pub open spec fn made_after<A, B, C, FUT>(
    hands: spec_fn(A, FUT) -> bool,
    ends: spec_fn(B) -> Result<C, Failure>,
    before: Result<A, Failure>,
    r: Result<C, Failure>,
) -> bool {
    match before {
        Ok(mid) => exists|work: FUT, b: B| #[trigger] hands(mid, work) && r == #[trigger] ends(b),
        Err(e) => r == Err::<C, Failure>(e),
    }
}

/// Step by step, a run of `longer` is a run of `chain`, and then, where that
/// run ends with a value, one more step: the work of the parking stage.
proof fn lemma_ends_in_suspended<P, Q, FUT, B>(
    longer: &Q,
    chain: &P,
    hands: spec_fn(P::OUT, FUT) -> bool,
    ends: spec_fn(B) -> Result<Q::OUT, Failure>,
    before: Step<P::Wait, Result<P::OUT, Failure>>,
    step: Step<Turn<P::Wait, FUT>, Result<Q::OUT, Failure>>,
    wakes: Seq<Turn<P::Wake, B>>,
    r: Result<Q::OUT, Failure>,
) -> (run: (Seq<P::Wake>, Result<P::OUT, Failure>)) where
    P: Pipeline,
    Q: Pipeline<IN = P::IN, Wait = Turn<P::Wait, FUT>, Wake = Turn<P::Wake, B>>,

    requires
        suspends(longer, chain, hands, ends),
        parked(hands, before, step),
        ends_in(longer, step, wakes, r),
    ensures
        ends_in(chain, before, run.0, run.1),
        made_after(hands, ends, run.1, r),
    decreases wakes.len(),
{
    if wakes.len() == 0 {
        (Seq::empty(), before->Done_0)
    } else {
        let wait = step->Pending_0;
        let next = choose|next: Step<Turn<P::Wait, FUT>, Result<Q::OUT, Failure>>| #[trigger]
            longer.resumes(wakes[0], next) && ends_in(longer, next, wakes.drop_first(), r);
        assert(Q::answers(wait, wakes[0]));
        match before {
            Step::Done(_) => {
                let work = wait->Here_0;
                let b = wakes[0]->Here_0;
                assert(wakes[0] == Turn::<P::Wake, B>::Here(b));
                assert(next == Step::<Turn<P::Wait, FUT>, Result<Q::OUT, Failure>>::Done(ends(b)));
                assert(wakes.drop_first().len() == 0);
                assert(hands(before->Done_0->Ok_0, work) && r == ends(b));
                (Seq::empty(), before->Done_0)
            },
            Step::Pending(earlier) => {
                let wake = wakes[0]->Before_0;
                assert(wakes[0] == Turn::<P::Wake, B>::Before(wake));
                let ahead = choose|ahead: Step<P::Wait, Result<P::OUT, Failure>>| #[trigger]
                    chain.resumes(wake, ahead) && parked(hands, ahead, next);
                let rest = lemma_ends_in_suspended(
                    longer,
                    chain,
                    hands,
                    ends,
                    ahead,
                    next,
                    wakes.drop_first(),
                    r,
                );
                let all = seq![wake] + rest.0;
                assert(all.drop_first() =~= rest.0);
                assert(chain.resumes(all[0], ahead) && ends_in(chain, ahead, all.drop_first(), rest.1));
                (all, rest.1)
            },
        }
    }
}

/// The end of a run of a chain with one more stage that parks: the error of
/// the run ahead of the stage, or the outcome of the stage's work.
pub proof fn lemma_outcome_suspended<P, Q, FUT, B>(
    longer: &Q,
    chain: &P,
    hands: spec_fn(P::OUT, FUT) -> bool,
    ends: spec_fn(B) -> Result<Q::OUT, Failure>,
    input: P::IN,
    r: Result<Q::OUT, Failure>,
) where P: Pipeline, Q: Pipeline<IN = P::IN, Wait = Turn<P::Wait, FUT>, Wake = Turn<P::Wake, B>>
    requires
        suspends(longer, chain, hands, ends),
        outcome(longer, input, r),
    ensures
        exists|before: Result<P::OUT, Failure>| #[trigger]
            outcome(chain, input, before) && made_after(hands, ends, before, r),
{
    let wakes = choose|wakes: Seq<Turn<P::Wake, B>>| runs(longer, input, wakes, r);
    let first = choose|first: Step<Turn<P::Wait, FUT>, Result<Q::OUT, Failure>>| #[trigger]
        longer.starts(input, first) && ends_in(longer, first, wakes, r);
    let ahead = choose|ahead: Step<P::Wait, Result<P::OUT, Failure>>| #[trigger]
        chain.starts(input, ahead) && parked(hands, ahead, first);
    let run = lemma_ends_in_suspended(longer, chain, hands, ends, ahead, first, wakes, r);
    assert(runs(chain, input, run.0, run.1));
    assert(outcome(chain, input, run.1));
}

/// `longer` gives every step that one more stage, which parks, can make of a
/// step that `chain` gives, and resumed with an outcome `b` of that stage's
/// work it ends with `ends(b)`; `hands(mid, work)` holds of the work that the
/// stage can hand back for a value `mid`, and of no other.
pub open spec fn covers_parking<P, Q, FUT, B>(
    longer: &Q,
    chain: &P,
    hands: spec_fn(P::OUT, FUT) -> bool,
    ends: spec_fn(B) -> Result<Q::OUT, Failure>,
) -> bool where P: Pipeline, Q: Pipeline<IN = P::IN, Wait = Turn<P::Wait, FUT>, Wake = Turn<P::Wake, B>> {
    &&& forall|
        input: P::IN,
        before: Step<P::Wait, Result<P::OUT, Failure>>,
        step: Step<Turn<P::Wait, FUT>, Result<Q::OUT, Failure>>,
    |
        #![trigger chain.starts(input, before), parked(hands, before, step)]
        chain.starts(input, before) && parked(hands, before, step) ==> longer.starts(input, step)
    &&& forall|
        earlier: P::Wake,
        before: Step<P::Wait, Result<P::OUT, Failure>>,
        step: Step<Turn<P::Wait, FUT>, Result<Q::OUT, Failure>>,
    |
        #![trigger chain.resumes(earlier, before), parked(hands, before, step)]
        chain.resumes(earlier, before) && parked(hands, before, step) ==> longer.resumes(
            Turn::Before(earlier),
            step,
        )
    &&& forall|b: B| #[trigger] longer.resumes(Turn::Here(b), Step::Done(ends(b)))
    &&& forall|wait: P::Wait, wake: P::Wake| #[trigger]
        P::answers(wait, wake) ==> Q::answers(Turn::Before(wait), Turn::Before(wake))
    &&& forall|work: FUT, b: B| #[trigger] Q::answers(Turn::Here(work), Turn::Here(b))
}

/// Step by step, a run of `chain` that ends with an error, or with a value
/// for which the parking stage hands back `work`, is the start of a run of
/// `longer`: the error ends that run too, and after the value it ends as
/// `ends` says, with the outcome `b` of the work.
proof fn lemma_ends_in_parked<P, Q, FUT, B>(
    longer: &Q,
    chain: &P,
    hands: spec_fn(P::OUT, FUT) -> bool,
    ends: spec_fn(B) -> Result<Q::OUT, Failure>,
    before: Step<P::Wait, Result<P::OUT, Failure>>,
    wakes: Seq<P::Wake>,
    end: Result<P::OUT, Failure>,
    work: FUT,
    b: B,
) -> (run: (Step<Turn<P::Wait, FUT>, Result<Q::OUT, Failure>>, Seq<Turn<P::Wake, B>>)) where
    P: Pipeline,
    Q: Pipeline<IN = P::IN, Wait = Turn<P::Wait, FUT>, Wake = Turn<P::Wake, B>>,

    requires
        covers_parking(longer, chain, hands, ends),
        ends_in(chain, before, wakes, end),
        end matches Ok(mid) ==> hands(mid, work),
    ensures
        parked(hands, before, run.0),
        ends_in(
            longer,
            run.0,
            run.1,
            match end {
                Ok(_) => ends(b),
                Err(e) => Err(e),
            },
        ),
    decreases wakes.len(),
{
    let r: Result<Q::OUT, Failure> = match end {
        Ok(_) => ends(b),
        Err(e) => Err(e),
    };
    if wakes.len() == 0 {
        match end {
            Ok(mid) => {
                let step = Step::<Turn<P::Wait, FUT>, Result<Q::OUT, Failure>>::Pending(Turn::Here(work));
                let all = seq![Turn::<P::Wake, B>::Here(b)];
                let last = Step::<Turn<P::Wait, FUT>, Result<Q::OUT, Failure>>::Done(ends(b));
                assert(all.drop_first().len() == 0);
                assert(all[0] == Turn::<P::Wake, B>::Here(b));
                assert(longer.resumes(Turn::Here(b), last));
                assert(Q::answers(Turn::Here(work), Turn::Here(b)));
                assert(longer.resumes(all[0], last) && ends_in(longer, last, all.drop_first(), r));
                (step, all)
            },
            Err(e) => (Step::Done(Err(e)), Seq::empty()),
        }
    } else {
        let ahead = choose|ahead: Step<P::Wait, Result<P::OUT, Failure>>| #[trigger]
            chain.resumes(wakes[0], ahead) && ends_in(chain, ahead, wakes.drop_first(), end);
        let rest = lemma_ends_in_parked(longer, chain, hands, ends, ahead, wakes.drop_first(), end, work, b);
        let wait = before->Pending_0;
        let step = Step::<Turn<P::Wait, FUT>, Result<Q::OUT, Failure>>::Pending(Turn::Before(wait));
        let all = seq![Turn::<P::Wake, B>::Before(wakes[0])] + rest.1;
        assert(all.drop_first() =~= rest.1);
        assert(all[0] == Turn::<P::Wake, B>::Before(wakes[0]));
        assert(chain.resumes(wakes[0], ahead) && parked(hands, ahead, rest.0));
        assert(longer.resumes(Turn::Before(wakes[0]), rest.0));
        assert(P::answers(wait, wakes[0]));
        assert(Q::answers(Turn::Before(wait), Turn::Before(wakes[0])));
        assert(longer.resumes(all[0], rest.0) && ends_in(longer, rest.0, all.drop_first(), r));
        (step, all)
    }
}

/// An error that a run of `chain` ends with ends a run of `longer`; after a
/// value for which the parking stage hands back `work`, a run of `longer`
/// can end as `ends` says, with any outcome `b` of the work.
pub proof fn lemma_outcome_parked<P, Q, FUT, B>(
    longer: &Q,
    chain: &P,
    hands: spec_fn(P::OUT, FUT) -> bool,
    ends: spec_fn(B) -> Result<Q::OUT, Failure>,
    input: P::IN,
    end: Result<P::OUT, Failure>,
    work: FUT,
    b: B,
) where P: Pipeline, Q: Pipeline<IN = P::IN, Wait = Turn<P::Wait, FUT>, Wake = Turn<P::Wake, B>>
    requires
        covers_parking(longer, chain, hands, ends),
        outcome(chain, input, end),
        end matches Ok(mid) ==> hands(mid, work),
    ensures
        outcome(
            longer,
            input,
            match end {
                Ok(_) => ends(b),
                Err(e) => Err(e),
            },
        ),
{
    let wakes = choose|wakes: Seq<P::Wake>| runs(chain, input, wakes, end);
    let ahead = choose|ahead: Step<P::Wait, Result<P::OUT, Failure>>| #[trigger]
        chain.starts(input, ahead) && ends_in(chain, ahead, wakes, end);
    let run = lemma_ends_in_parked(longer, chain, hands, ends, ahead, wakes, end, work, b);
    let r: Result<Q::OUT, Failure> = match end {
        Ok(_) => ends(b),
        Err(e) => Err(e),
    };
    assert(chain.starts(input, ahead) && parked(hands, ahead, run.0));
    assert(longer.starts(input, run.0));
    assert(runs(longer, input, run.1, r));
}

impl<NXT, FUT, F, P> AsyncConnect<P, F> where P: Pipeline, F: Fn(P::OUT) -> FUT, FUT: Future<Output = NXT> {
    /// The chain with the stage `next` gives all that `next` can make of
    /// what the chain ahead of it gives, and it ends with the value that it
    /// is resumed with.
    pub proof fn lemma_covers(&self)
        ensures
            covers_parking(self, &self.prev, hands_work(self.next), ends_with_value::<NXT>()),
    {
        let hands = hands_work(self.next);
        assert forall|
            earlier: P::Wake,
            before: Step<P::Wait, Result<P::OUT, Failure>>,
            step: Step<Turn<P::Wait, FUT>, Result<NXT, Failure>>,
        |
            #![trigger self.prev.resumes(earlier, before), parked(hands, before, step)]
            self.prev.resumes(earlier, before) && parked(hands, before, step) implies self.resumes(
            Turn::Before(earlier),
            step,
        ) by {
            let wake = Turn::<P::Wake, NXT>::Before(earlier);
            assert(self.resumes(wake, step) == (exists|b: Step<P::Wait, Result<P::OUT, Failure>>| #[trigger]
                self.prev.resumes(wake->Before_0, b) && parked(hands, b, step)));
            assert(self.prev.resumes(wake->Before_0, before) && parked(hands, before, step));
        }
        assert forall|wait: P::Wait, wake: P::Wake| #[trigger] P::answers(wait, wake) implies Self::answers(
            Turn::Before(wait),
            Turn::Before(wake),
        ) by {}
        assert forall|work: FUT, b: NXT| #[trigger] Self::answers(Turn::Here(work), Turn::Here(b)) by {}
        assert forall|b: NXT| #[trigger]
            self.resumes(Turn::Here(b), Step::Done(ends_with_value::<NXT>()(b))) by {}
    }

    /// The ends of the runs of a chain whose last stage is total and parks:
    /// the errors that the run ahead of the stage can end with, and, where
    /// that run can end with a value for which the stage hands back work,
    /// every value: the library does not look into the work, so to it any
    /// outcome is possible.
    pub proof fn lemma_outcome(&self, input: P::IN, r: Result<NXT, Failure>)
        ensures
            outcome(self, input, r) <==> match r {
                Ok(_) => exists|mid: P::OUT, work: FUT| #[trigger]
                    outcome(&self.prev, input, Ok(mid)) && #[trigger] call_ensures(self.next, (mid,), work),
                Err(e) => outcome(&self.prev, input, Err(e)),
            },
    {
        if outcome(self, input, r) {
            self.lemma_suspends();
            lemma_outcome_suspended(
                self,
                &self.prev,
                hands_work(self.next),
                ends_with_value::<NXT>(),
                input,
                r,
            );
            let before = choose|before: Result<P::OUT, Failure>| #[trigger]
                outcome(&self.prev, input, before) && made_after(
                    hands_work(self.next),
                    ends_with_value::<NXT>(),
                    before,
                    r,
                );
            if before is Ok {
                let mid = before->Ok_0;
                let (work, b) = choose|work: FUT, b: NXT| #[trigger]
                    hands_work(self.next)(mid, work) && r == #[trigger] ends_with_value::<NXT>()(b);
                assert(outcome(&self.prev, input, Ok(mid)) && call_ensures(self.next, (mid,), work));
            }
        }
        match r {
            Ok(value) => {
                if exists|mid: P::OUT, work: FUT| #[trigger]
                    outcome(&self.prev, input, Ok(mid)) && #[trigger] call_ensures(self.next, (mid,), work) {
                    let (mid, work) = choose|mid: P::OUT, work: FUT| #[trigger]
                        outcome(&self.prev, input, Ok(mid)) && #[trigger] call_ensures(
                            self.next,
                            (mid,),
                            work,
                        );
                    self.lemma_covers();
                    lemma_outcome_parked(
                        self,
                        &self.prev,
                        hands_work(self.next),
                        ends_with_value::<NXT>(),
                        input,
                        Ok(mid),
                        work,
                        value,
                    );
                }
            },
            Err(e) => {
                if outcome(&self.prev, input, Err(e)) {
                    self.lemma_covers();
                    lemma_outcome_parked(
                        self,
                        &self.prev,
                        hands_work(self.next),
                        ends_with_value::<NXT>(),
                        input,
                        Err(e),
                        arbitrary(),
                        arbitrary(),
                    );
                }
            },
        }
    }
}

impl<NXT, FUT, F, P> AsyncConnect<P, ErrorFuc<F>> where
    P: Pipeline,
    F: Fn(P::OUT) -> FUT,
    FUT: Future<Output = Result<NXT, Failure>>,
 {
    /// The chain with the stage `next` gives all that `next` can make of
    /// what the chain ahead of it gives, and it ends with the result that it
    /// is resumed with.
    pub proof fn lemma_covers_result(&self)
        ensures
            covers_parking(self, &self.prev, hands_work(self.next.f), ends_with_result::<NXT>()),
    {
        let hands = hands_work(self.next.f);
        assert forall|
            earlier: P::Wake,
            before: Step<P::Wait, Result<P::OUT, Failure>>,
            step: Step<Turn<P::Wait, FUT>, Result<NXT, Failure>>,
        |
            #![trigger self.prev.resumes(earlier, before), parked(hands, before, step)]
            self.prev.resumes(earlier, before) && parked(hands, before, step) implies self.resumes(
            Turn::Before(earlier),
            step,
        ) by {
            let wake = Turn::<P::Wake, Result<NXT, Failure>>::Before(earlier);
            assert(self.resumes(wake, step) == (exists|b: Step<P::Wait, Result<P::OUT, Failure>>| #[trigger]
                self.prev.resumes(wake->Before_0, b) && parked(hands, b, step)));
            assert(self.prev.resumes(wake->Before_0, before) && parked(hands, before, step));
        }
        assert forall|wait: P::Wait, wake: P::Wake| #[trigger] P::answers(wait, wake) implies Self::answers(
            Turn::Before(wait),
            Turn::Before(wake),
        ) by {}
        assert forall|work: FUT, b: Result<NXT, Failure>| #[trigger]
            Self::answers(Turn::Here(work), Turn::Here(b)) by {}
        assert forall|b: Result<NXT, Failure>| #[trigger]
            self.resumes(Turn::Here(b), Step::Done(ends_with_result::<NXT>()(b))) by {}
    }

    /// The ends of the runs of a chain whose last stage is fallible and
    /// parks: the errors that the run ahead of the stage can end with, and,
    /// where that run can end with a value for which the stage hands back
    /// work, every result: the library does not look into the work, so to it
    /// any outcome is possible.
    pub proof fn lemma_outcome_result(&self, input: P::IN, r: Result<NXT, Failure>)
        ensures
            outcome(self, input, r) <==> (r matches Err(e) && outcome(&self.prev, input, Err(e))) || exists|
                mid: P::OUT,
                work: FUT,
            | #[trigger]
                outcome(&self.prev, input, Ok(mid)) && #[trigger] call_ensures(self.next.f, (mid,), work),
    {
        if outcome(self, input, r) {
            self.lemma_suspends_result();
            lemma_outcome_suspended(
                self,
                &self.prev,
                hands_work(self.next.f),
                ends_with_result::<NXT>(),
                input,
                r,
            );
            let before = choose|before: Result<P::OUT, Failure>| #[trigger]
                outcome(&self.prev, input, before) && made_after(
                    hands_work(self.next.f),
                    ends_with_result::<NXT>(),
                    before,
                    r,
                );
            if before is Ok {
                let mid = before->Ok_0;
                let (work, b) = choose|work: FUT, b: Result<NXT, Failure>| #[trigger]
                    hands_work(self.next.f)(mid, work) && r == #[trigger] ends_with_result::<NXT>()(b);
                assert(outcome(&self.prev, input, Ok(mid)) && call_ensures(self.next.f, (mid,), work));
            }
        }
        if r matches Err(e) && outcome(&self.prev, input, Err(e)) {
            self.lemma_covers_result();
            lemma_outcome_parked(
                self,
                &self.prev,
                hands_work(self.next.f),
                ends_with_result::<NXT>(),
                input,
                Err(r->Err_0),
                arbitrary(),
                arbitrary(),
            );
        }
        if exists|mid: P::OUT, work: FUT| #[trigger]
            outcome(&self.prev, input, Ok(mid)) && #[trigger] call_ensures(self.next.f, (mid,), work) {
            let (mid, work) = choose|mid: P::OUT, work: FUT| #[trigger]
                outcome(&self.prev, input, Ok(mid)) && #[trigger] call_ensures(self.next.f, (mid,), work);
            self.lemma_covers_result();
            lemma_outcome_parked(
                self,
                &self.prev,
                hands_work(self.next.f),
                ends_with_result::<NXT>(),
                input,
                Ok(mid),
                work,
                r,
            );
        }
    }
}

} // verus!
