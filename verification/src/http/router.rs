use crate::http::handler::{reports, Filter, Handler, Select};
use crate::http::message::{
    IntoBody, Method, Reply, Response, Verb, STATUS_METHOD_NOT_ALLOWED, STATUS_NOT_FOUND,
    STATUS_SERVER_ERROR,
};
use crate::pipeline::link::{Failure, Step};
use vstd::prelude::*;
use vstd::utf8::encode_utf8;

verus! {

/// The handlers of one method, in the order in which they were registered.
struct Bucket<H> {
    method: Method,
    handlers: Vec<H>,
}

/// No method has two buckets.
spec fn distinct<H>(entries: Seq<Bucket<H>>) -> bool {
    forall|i: int, j: int| 0 <= i < j < entries.len() ==> entries[i].method@ != entries[j].method@
}

/// The bucket at `i` is the one of `verb`.
spec fn keyed<H>(entries: Seq<Bucket<H>>, verb: Verb, i: int) -> bool {
    0 <= i < entries.len() && entries[i].method@ == verb
}

/// The handlers that `entries` hold for `verb`: those of its bucket, or none.
spec fn lookup<H>(entries: Seq<Bucket<H>>, verb: Verb) -> Seq<H> {
    if exists|i: int| keyed(entries, verb, i) {
        entries[choose|i: int| keyed(entries, verb, i)].handlers@
    } else {
        Seq::empty()
    }
}

/// `k` is the place of the first of `handlers` that takes `path`.
pub open spec fn first_match<H: Filter>(handlers: Seq<H>, path: Seq<char>, k: int) -> bool {
    &&& 0 <= k < handlers.len()
    &&& handlers[k].matches(path)
    &&& forall|j: int| 0 <= j < k ==> !(#[trigger] handlers[j]).matches(path)
}

/// None of `handlers` takes `path`.
pub open spec fn no_match<H: Filter>(handlers: Seq<H>, path: Seq<char>) -> bool {
    forall|j: int| 0 <= j < handlers.len() ==> !(#[trigger] handlers[j]).matches(path)
}

/// The reply to a method that has no handler.
pub open spec fn method_not_allowed() -> Reply {
    Reply { status: STATUS_METHOD_NOT_ALLOWED, body: encode_utf8("method not allowed"@) }
}

/// The reply to a path that no handler of the method takes.
pub open spec fn not_found() -> Reply {
    Reply { status: STATUS_NOT_FOUND, body: encode_utf8("not found"@) }
}

/// The work on a request is over, with `reply`.
pub open spec fn ends<W>(step: Step<W, Response>, reply: Reply) -> bool {
    step matches Step::Done(response) && response@ == reply
}

/// Work on a request that waits for the outcome of `wait`; `handler` is the
/// one to resume with it.
pub struct Parked<'a, H: Handler> {
    pub handler: &'a H,
    pub wait: H::Wait,
}

/// What the router makes of `before`, the step that `handler` gave: a reply
/// ends the work, an error ends it with the reply that reports the error, and
/// pending work parks it.
pub open spec fn settles<'a, H: Handler>(
    handler: &'a H,
    before: Step<H::Wait, Result<Response, Failure>>,
    step: Step<Parked<'a, H>, Response>,
) -> bool {
    match before {
        Step::Done(Ok(response)) => step == Step::<Parked<'a, H>, Response>::Done(response),
        Step::Done(Err(e)) => step matches Step::Done(response) && response@ == reports(e),
        Step::Pending(wait) => step == Step::<Parked<'a, H>, Response>::Pending(Parked { handler, wait }),
    }
}

/// With one more bucket, of a method that had none, the new method has the
/// new bucket's handlers and every other method has what it had.
proof fn lemma_lookup_push<H>(entries: Seq<Bucket<H>>, bucket: Bucket<H>)
    requires
        distinct(entries),
        forall|i: int| !keyed(entries, bucket.method@, i),
    ensures
        distinct(entries.push(bucket)),
        lookup(entries, bucket.method@) == Seq::<H>::empty(),
        forall|verb: Verb| #[trigger]
            lookup(entries.push(bucket), verb) == (if verb == bucket.method@ {
                bucket.handlers@
            } else {
                lookup(entries, verb)
            }),
{
    let after = entries.push(bucket);
    let last = entries.len() as int;
    assert forall|i: int, j: int| 0 <= i < j < after.len() implies after[i].method@ != after[j].method@ by {
        if j == last {
            assert(!keyed(entries, bucket.method@, i));
        }
    }
    assert forall|verb: Verb| #[trigger]
        lookup(after, verb) == (if verb == bucket.method@ {
            bucket.handlers@
        } else {
            lookup(entries, verb)
        }) by {
        if verb == bucket.method@ {
            assert(keyed(after, verb, last));
            let j = choose|j: int| keyed(after, verb, j);
            if j != last {
                assert(keyed(entries, verb, j));
            }
        } else {
            assert forall|i: int| keyed(after, verb, i) <==> keyed(entries, verb, i) by {}
            if exists|i: int| keyed(entries, verb, i) {
                let i = choose|i: int| keyed(entries, verb, i);
                assert(keyed(after, verb, i));
                let j = choose|j: int| keyed(after, verb, j);
                assert(keyed(entries, verb, j));
            }
        }
    }
}

/// With other handlers in the bucket at `i`, the bucket's method has those
/// and every other method has what it had.
proof fn lemma_lookup_update<H>(entries: Seq<Bucket<H>>, i: int, bucket: Bucket<H>)
    requires
        distinct(entries),
        0 <= i < entries.len(),
        bucket.method@ == entries[i].method@,
    ensures
        distinct(entries.update(i, bucket)),
        lookup(entries, bucket.method@) == entries[i].handlers@,
        forall|verb: Verb| #[trigger]
            lookup(entries.update(i, bucket), verb) == (if verb == bucket.method@ {
                bucket.handlers@
            } else {
                lookup(entries, verb)
            }),
{
    let after = entries.update(i, bucket);
    assert forall|j: int, verb: Verb| keyed(after, verb, j) <==> keyed(entries, verb, j) by {}
    assert(keyed(entries, bucket.method@, i));
    assert forall|verb: Verb| #[trigger]
        lookup(after, verb) == (if verb == bucket.method@ {
            bucket.handlers@
        } else {
            lookup(entries, verb)
        }) by {
        if exists|j: int| keyed(entries, verb, j) {
            let a = choose|j: int| keyed(entries, verb, j);
            assert(keyed(after, verb, a));
            let b = choose|j: int| keyed(after, verb, j);
            assert(keyed(entries, verb, b));
            assert(a == b);
        }
    }
}

/// Without its last bucket, `entries` hold nothing for that bucket's method
/// and for every other method what they held.
proof fn lemma_lookup_drop_last<H>(entries: Seq<Bucket<H>>)
    requires
        distinct(entries),
        entries.len() > 0,
    ensures
        distinct(entries.drop_last()),
        forall|i: int| !keyed(entries.drop_last(), entries.last().method@, i),
        forall|verb: Verb| #[trigger]
            lookup(entries, verb) == (if verb == entries.last().method@ {
                entries.last().handlers@
            } else {
                lookup(entries.drop_last(), verb)
            }),
{
    let rest = entries.drop_last();
    assert(entries =~= rest.push(entries.last()));
    assert forall|i: int| !keyed(rest, entries.last().method@, i) by {
        if keyed(rest, entries.last().method@, i) {
            assert(entries[i].method@ != entries[entries.len() - 1].method@);
        }
    }
    lemma_lookup_push(rest, entries.last());
}

/// The first handler to take a path stays the first when further handlers
/// are put behind the others.
pub proof fn lemma_first_match_stays<H: Filter>(handlers: Seq<H>, behind: Seq<H>, path: Seq<char>, k: int)
    requires
        first_match(handlers, path, k),
    ensures
        first_match(handlers + behind, path, k),
        (handlers + behind)[k] == handlers[k],
{
    let all = handlers + behind;
    assert forall|j: int| 0 <= j < k implies !(#[trigger] all[j]).matches(path) by {
        assert(all[j] == handlers[j]);
    }
}

/// At most one handler is the first to take a path.
pub proof fn lemma_first_match_is_one<H: Filter>(handlers: Seq<H>, path: Seq<char>, k: int, l: int)
    requires
        first_match(handlers, path, k),
        first_match(handlers, path, l),
    ensures
        k == l,
{
    if k < l {
        assert(!handlers[k].matches(path));
    }
    if l < k {
        assert(!handlers[l].matches(path));
    }
}

/// Either no handler takes a path, or one is the first to take it.
pub proof fn lemma_first_match_or_none<H: Filter>(handlers: Seq<H>, path: Seq<char>)
    ensures
        no_match(handlers, path) != (exists|k: int| first_match(handlers, path, k)),
    decreases handlers.len(),
{
    if handlers.len() > 0 {
        let front = handlers.drop_last();
        let last = handlers.len() - 1;
        lemma_first_match_or_none(front, path);
        if no_match(front, path) {
            assert forall|k: int| first_match(handlers, path, k) implies k == last by {
                if k < last {
                    assert(front[k].matches(path));
                }
            }
            if handlers[last].matches(path) {
                assert forall|j: int| 0 <= j < last implies !(#[trigger] handlers[j]).matches(path) by {
                    assert(handlers[j] == front[j]);
                }
                assert(first_match(handlers, path, last));
            } else {
                assert forall|j: int| 0 <= j < handlers.len() implies !(#[trigger] handlers[j]).matches(path) by {
                    if j < last {
                        assert(handlers[j] == front[j]);
                    }
                }
            }
        } else {
            let k = choose|k: int| first_match(front, path, k);
            assert(handlers =~= front + seq![handlers[last]]);
            lemma_first_match_stays(front, seq![handlers[last]], path, k);
            assert(first_match(handlers, path, k));
        }
    }
}

/// Handlers by request method. Under each method they keep the order in
/// which they were registered, and a request goes to the first that takes its
/// path.
pub struct Router<H: Handler> {
    /// One bucket for each method that has handlers. Methods are few, so a
    /// method's bucket is found by going through them.
    entries: Vec<Bucket<H>>,
}

impl<H: Handler> Router<H> {
    /// No method has two buckets, no bucket is empty, and each handler stands
    /// in the bucket of its own method.
    pub closed spec fn wf(&self) -> bool {
        &&& distinct(self.entries@)
        &&& forall|i: int| 0 <= i < self.entries.len() ==> (#[trigger] self.entries[i]).handlers.len() > 0
        &&& forall|i: int, k: int|
            0 <= i < self.entries.len() && 0 <= k < self.entries[i].handlers.len() ==> (
            #[trigger] self.entries[i].handlers[k]).verb() == self.entries[i].method@
    }

    /// The handlers registered under `verb`, in the order of registration.
    pub closed spec fn handlers(&self, verb: Verb) -> Seq<H> {
        lookup(self.entries@, verb)
    }

    /// Each handler stands under its own method.
    pub proof fn lemma_filed_by_method(&self, verb: Verb, k: int)
        requires
            self.wf(),
            0 <= k < self.handlers(verb).len(),
        ensures
            self.handlers(verb)[k].verb() == verb,
    {
        let i = choose|i: int| keyed(self.entries@, verb, i);
        assert(self.entries[i].handlers[k].verb() == self.entries[i].method@);
    }

    /// The router without handlers.
    pub fn new() -> (router: Self)
        ensures
            router.wf(),
            forall|verb: Verb| #[trigger] router.handlers(verb) == Seq::<H>::empty(),
    {
        Router { entries: Vec::new() }
    }

    /// The reply with this status and `message` as its body.
    pub fn err_response<T: IntoBody>(status_code: u16, message: T) -> (response: Response)
        ensures
            response@ == (Reply { status: status_code, body: message.bytes() }),
    {
        Response::new(status_code, message.into_body())
    }

    /// The place of the bucket of `method`, if it has one.
    fn find(&self, method: &Method) -> (place: Option<usize>)
        requires
            self.wf(),
        ensures
            match place {
                Some(i) => keyed(self.entries@, method@, i as int),
                None => forall|i: int| !keyed(self.entries@, method@, i),
            },
    {
        let mut i: usize = 0;
        while i < self.entries.len()
            invariant
                i <= self.entries.len(),
                forall|j: int| 0 <= j < i ==> self.entries[j].method@ != method@,
            decreases self.entries.len() - i,
        {
            if self.entries[i].method.same(method) {
                return Some(i);
            }
            i += 1;
        }
        None
    }

    /// Registers `handler` under its method, behind the handlers that the
    /// method has already.
    pub fn add(&mut self, handler: H)
        requires
            old(self).wf(),
        ensures
            final(self).wf(),
            forall|verb: Verb| #[trigger]
                final(self).handlers(verb) == (if verb == handler.verb() {
                    old(self).handlers(verb).push(handler)
                } else {
                    old(self).handlers(verb)
                }),
    {
        let method = handler.method();
        let ghost before = self.entries@;
        match self.find(&method) {
            None => {
                let mut handlers = Vec::new();
                handlers.push(handler);
                let bucket = Bucket { method, handlers };
                proof {
                    lemma_lookup_push(before, bucket);
                    assert(bucket.handlers@ =~= lookup(before, bucket.method@).push(handler));
                }
                self.entries.push(bucket);
            },
            Some(i) => {
                self.entries[i].handlers.push(handler);
                proof {
                    let after = self.entries@;
                    assert(after =~= before.update(i as int, after[i as int]));
                    lemma_lookup_update(before, i as int, after[i as int]);
                }
            },
        }
    }

    /// Puts the handlers of `other` behind those of `self`, method by method.
    /// Under each method the handlers of either router keep their order.
    pub fn merge(self, other: Router<H>) -> (merged: Self)
        requires
            self.wf(),
            other.wf(),
        ensures
            merged.wf(),
            forall|verb: Verb| #[trigger] merged.handlers(verb) == self.handlers(verb) + other.handlers(verb),
    {
        let mut merged = self;
        let mut rest = other.entries;
        while rest.len() > 0
            invariant
                merged.wf(),
                distinct(rest@),
                forall|i: int| 0 <= i < rest.len() ==> (#[trigger] rest[i]).handlers.len() > 0,
                forall|i: int, k: int|
                    0 <= i < rest.len() && 0 <= k < rest[i].handlers.len() ==> (
                    #[trigger] rest[i].handlers[k]).verb() == rest[i].method@,
                forall|verb: Verb|
                    #![trigger lookup(rest@, verb)]
                    #![trigger merged.handlers(verb)]
                    merged.handlers(verb) + lookup(rest@, verb) =~= self.handlers(verb) + other.handlers(verb),
            decreases rest.len(),
        {
            let ghost before = merged.entries@;
            let ghost waiting = rest@;
            proof {
                lemma_lookup_drop_last(waiting);
            }
            let bucket = rest.pop().unwrap();
            let Bucket { method, handlers } = bucket;
            let mut handlers = handlers;
            let ghost moved = handlers@;
            match merged.find(&method) {
                None => {
                    let bucket = Bucket { method, handlers };
                    proof {
                        lemma_lookup_push(before, bucket);
                    }
                    merged.entries.push(bucket);
                },
                Some(i) => {
                    merged.entries[i].handlers.append(&mut handlers);
                    proof {
                        let after = merged.entries@;
                        assert(after =~= before.update(i as int, after[i as int]));
                        lemma_lookup_update(before, i as int, after[i as int]);
                    }
                },
            }
            proof {
                assert forall|verb: Verb|
                    #![trigger lookup(rest@, verb)]
                    #![trigger merged.handlers(verb)]
                    merged.handlers(verb) + lookup(rest@, verb) =~= self.handlers(verb) + other.handlers(verb) by {
                    assert(lookup(before, verb) + lookup(waiting, verb) =~= self.handlers(verb) + other.handlers(
                        verb,
                    ));
                    if verb == method@ {
                        assert(lookup(rest@, verb) =~= Seq::<H>::empty());
                        assert(lookup(merged.entries@, verb) =~= lookup(before, verb) + moved);
                    }
                }
            }
        }
        proof {
            assert forall|verb: Verb| #[trigger]
                merged.handlers(verb) == self.handlers(verb) + other.handlers(verb) by {
                assert(lookup(rest@, verb) =~= Seq::<H>::empty());
                assert(merged.handlers(verb) + lookup(rest@, verb) =~= merged.handlers(verb));
            }
        }
        merged
    }

    /// The place of the first of `handlers` that takes `path`, if one does.
    fn first(handlers: &Vec<H>, path: &str) -> (place: Option<usize>)
        ensures
            match place {
                Some(k) => first_match(handlers@, path@, k as int),
                None => no_match(handlers@, path@),
            },
    {
        let mut k: usize = 0;
        while k < handlers.len()
            invariant
                k <= handlers.len(),
                forall|j: int| 0 <= j < k ==> !(#[trigger] handlers@[j]).matches(path@),
            decreases handlers.len() - k,
        {
            if handlers[k].test(path) {
                return Some(k);
            }
            k += 1;
        }
        None
    }

    /// Ends or parks the work of `handler`, from the step that it gave.
    fn settle<'a>(handler: &'a H, before: Step<H::Wait, Result<Response, Failure>>) -> (step: Step<
        Parked<'a, H>,
        Response,
    >)
        ensures
            settles(handler, before, step),
    {
        match before {
            Step::Done(Ok(response)) => Step::Done(response),
            Step::Done(Err(e)) => Step::Done(
                Self::err_response(STATUS_SERVER_ERROR, e.description()),
            ),
            Step::Pending(wait) => Step::Pending(Parked { handler, wait }),
        }
    }

    /// Serves one request.
    ///
    /// A method without handlers gets the reply "method not allowed", and a
    /// path that no handler of the method takes gets "not found"; neither
    /// reaches a handler. Else the request goes to the first handler of the
    /// method that takes the path, in the order of registration, and to no
    /// other. What that handler gives ends the work with a reply, or parks it.
    pub fn process<'a>(&'a self, method: Method, path: String, body: H::Request) -> (step: Step<
        Parked<'a, H>,
        Response,
    >)
        requires
            self.wf(),
            forall|k: int|
                first_match(self.handlers(method@), path@, k) ==> (#[trigger] self.handlers(method@)[k]).accepts(
                    path,
                    body,
                ),
        ensures
            self.handlers(method@).len() == 0 ==> ends(step, method_not_allowed()),
            self.handlers(method@).len() > 0 && no_match(self.handlers(method@), path@) ==> ends(
                step,
                not_found(),
            ),
            forall|k: int|
                first_match(self.handlers(method@), path@, k) ==> exists|
                    before: Step<H::Wait, Result<Response, Failure>>,
                | #[trigger]
                    self.handlers(method@)[k].serves(path, body, before) && settles(
                        &self.handlers(method@)[k],
                        before,
                        step,
                    ),
    {
        match self.find(&method) {
            None => Step::Done(Self::err_response(STATUS_METHOD_NOT_ALLOWED, "method not allowed")),
            Some(i) => {
                proof {
                    let j = choose|j: int| keyed(self.entries@, method@, j);
                    assert(keyed(self.entries@, method@, i as int));
                    assert(keyed(self.entries@, method@, j));
                    assert(j == i);
                }
                let handlers = &self.entries[i].handlers;
                assert(handlers@ == self.handlers(method@));
                match Self::first(handlers, path.as_str()) {
                    None => Step::Done(Self::err_response(STATUS_NOT_FOUND, "not found")),
                    Some(k) => {
                        let handler = &handlers[k];
                        let before = handler.proc(path, body);
                        Self::settle(handler, before)
                    },
                }
            },
        }
    }

    /// Goes on with parked work: `handler` is resumed with `wake`, and what it
    /// gives ends the work with a reply, or parks it again.
    pub fn resume<'a>(handler: &'a H, wake: H::Wake) -> (step: Step<Parked<'a, H>, Response>)
        requires
            handler.admits(wake),
        ensures
            exists|before: Step<H::Wait, Result<Response, Failure>>| #[trigger]
                handler.resumes(wake, before) && settles(handler, before, step),
    {
        let before = handler.resume(wake);
        Self::settle(handler, before)
    }
}

} // verus!
