use std::collections::VecDeque;
use vstd::prelude::*;

verus! {

/// A fatal condition: the simulation must not go on after it.
#[derive(Clone, Copy, Debug, PartialEq, Eq, Structural)]
pub enum Fault {
    /// A request address lies outside every registered range.
    OutOfRange,
    /// A request targets an address that already holds an unresolved request.
    DuplicateInFlight,
    /// The timing engine reported a completion that matches no admitted access,
    /// or a beat out of sequential order.
    Protocol,
    /// An access address is not aligned to the access width.
    Misaligned,
    /// The access width is not a whole multiple of the engine's transfer width.
    Misconfigured,
}

/// One pipeline stage, advanced one cycle at a time. Each stage states what its
/// operations do through `ticked`, `pushed` and `popped`, which relate the
/// stage before a call to the stage after it and to the call's result.
pub trait Drain: Sized {
    type Req;
    type Resp;

    /// The stage's internal invariant.
    spec fn wf(&self) -> bool;

    /// A bound on the responses that `pop` can still hand out before the next `tick`.
    spec fn backlog(&self) -> nat;

    /// Whether the stage takes `req` now; `push` of any other request is a fault.
    spec fn accepts(&self, req: Self::Req) -> bool;

    /// The fault that `check` reports for a request the stage does not take.
    spec fn refusal(&self, req: Self::Req) -> Fault;

    /// `after` and `r` are what one `tick` makes of this stage.
    spec fn ticked(&self, after: Self, r: Result<(), Fault>) -> bool;

    /// `after` is what `push(req)` makes of this stage.
    spec fn pushed(&self, req: Self::Req, after: Self) -> bool;

    /// `after` and `r` are what one `pop` makes of this stage.
    spec fn popped(&self, after: Self, r: Option<Self::Resp>) -> bool;

    /// Tells, without changing anything, whether `push(req)` would be taken,
    /// and which fault it would be otherwise.
    fn check(&self, req: &Self::Req) -> (r: Result<(), Fault>)
        requires
            self.wf(),
        ensures
            r is Ok <==> self.accepts(*req),
            r is Err ==> r == Err::<(), Fault>(self.refusal(*req)),
    ;

    /// Advances the stage by one cycle, ticking owned stages first.
    fn tick(&mut self) -> (r: Result<(), Fault>)
        requires
            old(self).wf(),
        ensures
            final(self).wf(),
            old(self).ticked(*final(self), r),
    ;

    /// Accepts one request for eventual processing.
    fn push(&mut self, req: Self::Req)
        requires
            old(self).wf(),
            old(self).accepts(req),
        ensures
            final(self).wf(),
            old(self).pushed(req, *final(self)),
    ;

    /// Hands out at most one ready response; never blocks.
    fn pop(&mut self) -> (r: Option<Self::Resp>)
        requires
            old(self).wf(),
        ensures
            final(self).wf(),
            old(self).popped(*final(self), r),
            r is Some ==> final(self).backlog() < old(self).backlog(),
            r is None ==> final(self).backlog() <= old(self).backlog(),
    ;
}

/// `c` is what pushing `reqs`, in order, makes of `a`.
pub open spec fn push_chain<T: Drain>(a: T, reqs: Seq<T::Req>, c: T) -> bool
    decreases reqs.len(),
{
    if reqs.len() == 0 {
        a == c
    } else {
        exists|b: T| push_chain(a, reqs.drop_last(), b) && #[trigger] b.pushed(reqs.last(), c)
    }
}

/// `c` is what popping `a` repeatedly makes of it when the pops return `resps`.
pub open spec fn pop_chain<T: Drain>(a: T, resps: Seq<T::Resp>, c: T) -> bool
    decreases resps.len(),
{
    if resps.len() == 0 {
        a == c
    } else {
        exists|b: T| pop_chain(a, resps.drop_last(), b) && #[trigger] b.popped(c, Some(resps.last()))
    }
}

/// `a + b`, held at `usize::MAX`.
pub open spec fn sat_add(a: usize, b: usize) -> usize {
    if a + b > usize::MAX {
        usize::MAX
    } else {
        (a + b) as usize
    }
}

/// Tags of a time-tagged queue never decrease from front to back.
pub open spec fn tags_sorted<X>(q: Seq<(usize, X)>) -> bool {
    forall|i: int, j: int| 0 <= i <= j < q.len() ==> #[trigger] q[i].0 <= #[trigger] q[j].0
}

/// Every tag of `q` is at most `bound`.
pub open spec fn tags_at_most<X>(q: Seq<(usize, X)>, bound: usize) -> bool {
    forall|i: int| 0 <= i < q.len() ==> #[trigger] q[i].0 <= bound
}

/// The payloads of a time-tagged queue.
pub open spec fn payloads<X>(q: Seq<(usize, X)>) -> Seq<X> {
    q.map_values(|e: (usize, X)| e.1)
}

/// The front `k` entries of `q`, and only they, have a tag of at most `now`.
pub open spec fn front_due<X>(q: Seq<(usize, X)>, k: int, now: usize) -> bool {
    &&& 0 <= k <= q.len()
    &&& forall|i: int| 0 <= i < k ==> #[trigger] q[i].0 <= now
    &&& k < q.len() ==> q[k].0 > now
}

/// One successful `tick` of a delay, through the states of its wrapped stage:
/// `t1` after the wrapped stage's own tick, `t2` after it took the `k` released
/// requests in order, `d` after it handed out the new responses, and then a
/// last `pop` that returned nothing.
pub open spec fn delay_step<T: Drain>(before: Delay<T>, after: Delay<T>, k: int, t1: T, t2: T, d: T) -> bool {
    let u0 = before.uplink().len();
    &&& before.inner().ticked(t1, Ok(()))
    &&& front_due(before.downlink(), k, after.now())
    &&& after.downlink() == before.downlink().skip(k)
    &&& push_chain(t1, payloads(before.downlink().take(k)), t2)
    &&& after.uplink().len() >= u0
    &&& after.uplink().take(u0 as int) == before.uplink()
    &&& forall|i: int|
        u0 <= i < after.uplink().len() ==> (#[trigger] after.uplink()[i]).0 == sat_add(after.now(), after.up_delay())
    &&& pop_chain(t2, payloads(after.uplink().skip(u0 as int)), d)
    &&& d.popped(after.inner(), None)
}

/// A tick hands a request to the wrapped stage only once its release cycle has
/// come: an entry tagged `t + d` at push time (counter `t`, delay `d`) among the
/// `k` released ones leaves the counter at `t + d` or later.
pub proof fn lemma_release_not_early<X>(q: Seq<(usize, X)>, k: int, now: usize, i: int, t: usize, d: usize)
    requires
        front_due(q, k, now),
        0 <= i < k,
        q[i].0 == sat_add(t, d),
        t + d <= usize::MAX,
    ensures
        t + d <= now,
{
    assert(q[i].0 <= now);
}

/// A `tick` of a delay that stops because the wrapped stage's own tick failed
/// with `r`: the counter and both queues are as they were.
pub open spec fn inner_tick_fault<T: Drain>(before: Delay<T>, after: Delay<T>, r: Result<(), Fault>) -> bool {
    &&& r is Err
    &&& before.inner().ticked(after.inner(), r)
    &&& after.now() == before.now()
    &&& after.downlink() == before.downlink()
    &&& after.uplink() == before.uplink()
}

/// A `tick` of a delay that stops because the wrapped stage refused a due
/// request: the wrapped stage ticked (to `t1`) and took the `k` due requests
/// before it in order, then refused request `k`, which was due too, with the
/// fault `r`. The counter has advanced, request `k` and those after it wait in
/// the downlink, and no response was collected.
pub open spec fn release_refused<T: Drain>(
    before: Delay<T>,
    after: Delay<T>,
    r: Result<(), Fault>,
    k: int,
    t1: T,
) -> bool {
    &&& r is Err
    &&& before.inner().ticked(t1, Ok(()))
    &&& after.now() == sat_add(before.now(), 1)
    &&& 0 <= k < before.downlink().len()
    &&& forall|i: int| 0 <= i <= k ==> #[trigger] before.downlink()[i].0 <= after.now()
    &&& after.downlink() == before.downlink().skip(k)
    &&& push_chain(t1, payloads(before.downlink().take(k)), after.inner())
    &&& !after.inner().accepts(before.downlink()[k].1)
    &&& r == Err::<(), Fault>(after.inner().refusal(before.downlink()[k].1))
    &&& after.uplink() == before.uplink()
}

/// The delay is never shorter than both latencies: when a tick releases a
/// request that was pushed while the counter read `t`, every response that tick
/// collects is tagged `t + down_delay + up_delay` or later, and `pop` hands a
/// response out only once the counter reaches its tag.
pub proof fn lemma_delay_fidelity<T: Drain>(
    before: Delay<T>,
    after: Delay<T>,
    k: int,
    t1: T,
    t2: T,
    d: T,
    i: int,
    j: int,
    t: usize,
)
    requires
        delay_step(before, after, k, t1, t2, d),
        0 <= i < k,
        before.downlink()[i].0 == sat_add(t, before.down_delay()),
        before.uplink().len() <= j < after.uplink().len(),
        before.up_delay() == after.up_delay(),
        t + before.down_delay() + before.up_delay() <= usize::MAX,
    ensures
        after.uplink()[j].0 >= t + before.down_delay() + before.up_delay(),
{
    assert(before.downlink()[i].0 <= after.now());
    assert(after.uplink()[j].0 == sat_add(after.now(), after.up_delay()));
}

/// Wraps a stage and adds fixed request-path and response-path latencies.
pub struct Delay<T: Drain> {
    inner: T,
    up_delay: usize,
    down_delay: usize,
    tick: usize,
    downlink: VecDeque<(usize, T::Req)>,
    uplink: VecDeque<(usize, T::Resp)>,
}

impl<T: Drain> Delay<T> {
    /// The wrapped stage.
    pub closed spec fn inner(&self) -> T {
        self.inner
    }

    /// Latency added to responses.
    pub closed spec fn up_delay(&self) -> usize {
        self.up_delay
    }

    /// Latency added to requests.
    pub closed spec fn down_delay(&self) -> usize {
        self.down_delay
    }

    /// The local cycle counter.
    pub closed spec fn now(&self) -> usize {
        self.tick
    }

    /// Requests not yet handed to the wrapped stage, with their release cycles.
    pub closed spec fn downlink(&self) -> Seq<(usize, T::Req)> {
        self.downlink@
    }

    /// Responses collected from the wrapped stage, with the cycles they become visible.
    pub closed spec fn uplink(&self) -> Seq<(usize, T::Resp)> {
        self.uplink@
    }

    /// The invariant: the wrapped stage is well formed, and both queues are
    /// ordered by tag, no tag lying beyond the counter plus the queue's delay.
    pub open spec fn queues_ok(&self) -> bool {
        &&& self.inner().wf()
        &&& tags_sorted(self.downlink())
        &&& tags_at_most(self.downlink(), sat_add(self.now(), self.down_delay()))
        &&& tags_sorted(self.uplink())
        &&& tags_at_most(self.uplink(), sat_add(self.now(), self.up_delay()))
    }

    pub fn new(inner: T, up_delay: usize, down_delay: usize) -> (r: Delay<T>)
        requires
            inner.wf(),
        ensures
            r.wf(),
            r.inner() == inner,
            r.up_delay() == up_delay,
            r.down_delay() == down_delay,
            r.now() == 0,
            r.downlink() == Seq::<(usize, T::Req)>::empty(),
            r.uplink() == Seq::<(usize, T::Resp)>::empty(),
    {
        Delay {
            inner,
            up_delay,
            down_delay,
            tick: 0,
            downlink: VecDeque::new(),
            uplink: VecDeque::new(),
        }
    }
}

impl<T: Drain> Drain for Delay<T> {
    type Req = T::Req;
    type Resp = T::Resp;

    open spec fn wf(&self) -> bool {
        self.queues_ok()
    }

    open spec fn backlog(&self) -> nat {
        self.uplink().len()
    }

    /// A delay takes every request; the wrapped stage judges it on release.
    open spec fn accepts(&self, req: T::Req) -> bool {
        true
    }

    /// Never reported: a delay takes every request.
    open spec fn refusal(&self, req: T::Req) -> Fault {
        Fault::Protocol
    }

    open spec fn ticked(&self, after: Self, r: Result<(), Fault>) -> bool {
        &&& after.up_delay() == self.up_delay()
        &&& after.down_delay() == self.down_delay()
        &&& r is Ok ==> after.now() == sat_add(self.now(), 1) && exists|k: int, t1: T, t2: T, d: T|
            #[trigger] delay_step(*self, after, k, t1, t2, d)
        &&& r is Err ==> inner_tick_fault(*self, after, r) || exists|k: int, t1: T|
            #[trigger] release_refused(*self, after, r, k, t1)
    }

    open spec fn pushed(&self, req: T::Req, after: Self) -> bool {
        &&& after.inner() == self.inner()
        &&& after.now() == self.now()
        &&& after.up_delay() == self.up_delay()
        &&& after.down_delay() == self.down_delay()
        &&& after.downlink() == self.downlink().push((sat_add(self.now(), self.down_delay()), req))
        &&& after.uplink() == self.uplink()
    }

    open spec fn popped(&self, after: Self, r: Option<T::Resp>) -> bool {
        &&& after.inner() == self.inner()
        &&& after.now() == self.now()
        &&& after.up_delay() == self.up_delay()
        &&& after.down_delay() == self.down_delay()
        &&& after.downlink() == self.downlink()
        &&& if self.uplink().len() > 0 && self.uplink()[0].0 <= self.now() {
            r == Some(self.uplink()[0].1) && after.uplink() == self.uplink().drop_first()
        } else {
            r is None && after.uplink() == self.uplink()
        }
    }

    fn check(&self, req: &T::Req) -> (r: Result<(), Fault>) {
        Ok(())
    }

    fn tick(&mut self) -> (r: Result<(), Fault>) {
        let t = self.inner.tick();
        if t.is_err() {
            assert(inner_tick_fault(*old(self), *self, t));
            return t;
        }
        assert(t == Ok::<(), Fault>(t->Ok_0));
        let ghost t1 = self.inner;
        self.tick = self.tick.saturating_add(1);
        let ghost q0 = self.downlink@;
        let ghost mut k: int = 0;
        while self.downlink.len() > 0 && self.downlink[0].0 <= self.tick
            invariant
                self.inner.wf(),
                0 <= k <= q0.len(),
                self.downlink@ == q0.skip(k),
                forall|i: int| 0 <= i < k ==> #[trigger] q0[i].0 <= self.tick,
                push_chain(t1, payloads(q0.take(k)), self.inner),
                old(self).inner.ticked(t1, Ok(())),
                q0 == old(self).downlink@,
                tags_sorted(self.downlink@),
                tags_at_most(self.downlink@, sat_add(self.tick, self.down_delay)),
                self.uplink@ == old(self).uplink@,
                tags_sorted(self.uplink@),
                tags_at_most(self.uplink@, sat_add(self.tick, self.up_delay)),
                self.tick == sat_add(old(self).tick, 1),
                self.up_delay == old(self).up_delay,
                self.down_delay == old(self).down_delay,
            decreases self.downlink@.len(),
        {
            let c = self.inner.check(&self.downlink[0].1);
            if c.is_err() {
                proof {
                    assert(self.downlink@[0] == q0[k]);
                    assert(release_refused(*old(self), *self, c, k, t1));
                }
                return c;
            }
            let entry = self.downlink.pop_front();
            if let Some((_, req)) = entry {
                let ghost b = self.inner;
                self.inner.push(req);
                proof {
                    assert(req == q0[k].1);
                    let s = payloads(q0.take(k + 1));
                    assert(s.drop_last() =~= payloads(q0.take(k)));
                    assert(s.last() == req);
                    assert(b.pushed(s.last(), self.inner));
                    assert(push_chain(t1, s, self.inner));
                }
            }
            proof {
                k = k + 1;
                assert(self.downlink@ =~= q0.skip(k));
            }
        }
        let ghost t2 = self.inner;
        let ghost u0 = self.uplink@;
        let stamp = self.tick.saturating_add(self.up_delay);
        let ghost mut d = t2;
        loop
            invariant_except_break
                pop_chain(t2, payloads(self.uplink@.skip(u0.len() as int)), self.inner),
            invariant
                self.inner.wf(),
                front_due(q0, k, self.tick),
                self.downlink@ == q0.skip(k),
                push_chain(t1, payloads(q0.take(k)), t2),
                self.uplink@.len() >= u0.len(),
                self.uplink@.take(u0.len() as int) == u0,
                forall|i: int| u0.len() <= i < self.uplink@.len() ==> (#[trigger] self.uplink@[i]).0 == stamp,
                tags_sorted(self.downlink@),
                tags_at_most(self.downlink@, sat_add(self.tick, self.down_delay)),
                tags_sorted(self.uplink@),
                tags_at_most(self.uplink@, stamp),
                stamp == sat_add(self.tick, self.up_delay),
                self.tick == sat_add(old(self).tick, 1),
                self.up_delay == old(self).up_delay,
                self.down_delay == old(self).down_delay,
                u0 == old(self).uplink@,
                old(self).inner.ticked(t1, Ok(())),
            ensures
                pop_chain(t2, payloads(self.uplink@.skip(u0.len() as int)), d),
                d.popped(self.inner, None),
            decreases self.inner.backlog(),
        {
            let ghost b = self.inner;
            let ghost before = self.uplink@;
            match self.inner.pop() {
                Some(resp) => {
                    self.uplink.push_back((stamp, resp));
                    proof {
                        assert(self.uplink@.take(u0.len() as int) =~= before.take(u0.len() as int));
                        let s = payloads(self.uplink@.skip(u0.len() as int));
                        assert(s.drop_last() =~= payloads(before.skip(u0.len() as int)));
                        assert(s.last() == resp);
                        assert(b.popped(self.inner, Some(s.last())));
                        assert(pop_chain(t2, s, self.inner));
                    }
                },
                None => {
                    proof {
                        d = b;
                    }
                    break;
                },
            }
        }
        assert(delay_step(*old(self), *self, k, t1, t2, d));
        Ok(())
    }

    fn push(&mut self, req: T::Req) {
        let stamp = self.tick.saturating_add(self.down_delay);
        self.downlink.push_back((stamp, req));
    }

    fn pop(&mut self) -> (r: Option<T::Resp>) {
        if self.uplink.len() > 0 && self.uplink[0].0 <= self.tick {
            match self.uplink.pop_front() {
                Some((_, resp)) => Some(resp),
                None => None,
            }
        } else {
            None
        }
    }
}

} // verus!
