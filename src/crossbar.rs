use vstd::prelude::*;

use crate::drain::Drain;
use crate::drain::Fault;

verus! {

/// An address type, ordered by its position on the 64-bit line.
pub trait Addr: Copy {
    /// The address as a 64-bit value.
    spec fn key(&self) -> u64;

    fn to_key(&self) -> (r: u64)
        ensures
            r == self.key(),
    ;
}

impl Addr for u64 {
    open spec fn key(&self) -> u64 {
        *self
    }

    fn to_key(&self) -> (r: u64) {
        *self
    }
}

/// A request that carries the address it is routed by.
pub trait Routable<A: Addr> {
    /// The routing address.
    spec fn route(&self) -> A;

    fn addr(&self) -> (r: A)
        ensures
            r == self.route(),
    ;
}

/// Whether the half-open range `r` holds `a`.
pub open spec fn covers(r: (u64, u64), a: u64) -> bool {
    r.0 <= a < r.1
}

/// Ranges that are non-empty, ordered by start and pairwise disjoint.
pub open spec fn ranges_ok(rs: Seq<(u64, u64)>) -> bool {
    &&& forall|i: int| 0 <= i < rs.len() ==> (#[trigger] rs[i]).0 < rs[i].1
    &&& forall|i: int, j: int| 0 <= i < j < rs.len() ==> (#[trigger] rs[i]).1 <= (#[trigger] rs[j]).0
}

/// Whether the half-open ranges `r` and `s` share no address.
pub open spec fn apart(r: (u64, u64), s: (u64, u64)) -> bool {
    r.1 <= s.0 || s.1 <= r.0
}

/// Registered ranges never overlap, so at most one of them holds any address.
pub proof fn lemma_ranges_disjoint(rs: Seq<(u64, u64)>, i: int, j: int, a: u64)
    requires
        ranges_ok(rs),
        0 <= i < rs.len(),
        0 <= j < rs.len(),
        i != j,
    ensures
        apart(rs[i], rs[j]),
        !(covers(rs[i], a) && covers(rs[j], a)),
{
    if i < j {
        assert(rs[i].1 <= rs[j].0);
    } else {
        assert(rs[j].1 <= rs[i].0);
    }
}

/// Ordered, disjoint ranges are fixed by their set: two registration orders of
/// the same ranges give the same table.
pub proof fn lemma_table_by_set(rs: Seq<(u64, u64)>, qs: Seq<(u64, u64)>)
    requires
        ranges_ok(rs),
        ranges_ok(qs),
        rs.to_set() == qs.to_set(),
    ensures
        rs == qs,
    decreases rs.len(),
{
    if rs.len() == 0 {
        if qs.len() > 0 {
            assert(qs.to_set().contains(qs[0]));
        }
        assert(qs.len() == 0);
    } else {
        assert(rs.to_set().contains(rs[0]));
        assert(qs.contains(rs[0]));
        assert(qs.len() > 0);
        assert(qs.to_set().contains(qs[0]));
        assert(rs.contains(qs[0]));
        // the first entries are both the least start
        let i = choose|i: int| 0 <= i < qs.len() && qs[i] == rs[0];
        let j = choose|j: int| 0 <= j < rs.len() && rs[j] == qs[0];
        if i > 0 {
            assert(qs[0].1 <= qs[i].0);
        }
        if j > 0 {
            assert(rs[0].1 <= rs[j].0);
        }
        assert(rs[0] == qs[0]);
        let r1 = rs.drop_first();
        let q1 = qs.drop_first();
        assert forall|x: (u64, u64)| r1.to_set().contains(x) <==> q1.to_set().contains(x) by {
            if r1.contains(x) {
                let a = choose|a: int| 0 <= a < r1.len() && r1[a] == x;
                assert(rs[a + 1] == x);
                assert(rs.to_set().contains(x));
                let b = choose|b: int| 0 <= b < qs.len() && qs[b] == x;
                assert(rs[0].1 <= rs[a + 1].0);
                if b == 0 {
                    assert(false);
                }
                assert(q1[b - 1] == x);
            }
            if q1.contains(x) {
                let a = choose|a: int| 0 <= a < q1.len() && q1[a] == x;
                assert(qs[a + 1] == x);
                assert(qs.to_set().contains(x));
                let b = choose|b: int| 0 <= b < rs.len() && rs[b] == x;
                assert(qs[0].1 <= qs[a + 1].0);
                if b == 0 {
                    assert(false);
                }
                assert(r1[b - 1] == x);
            }
        }
        assert(r1.to_set() =~= q1.to_set());
        lemma_table_by_set(r1, q1);
        assert(rs =~= seq![rs[0]] + r1);
        assert(qs =~= seq![qs[0]] + q1);
    }
}

/// The registered ranges of a router partition the addresses it routes: no two
/// overlap, and a request whose address lies in none of them (in a gap, below
/// the first or past the last) is refused with the out-of-range fault.
pub proof fn lemma_router_partition<A: Addr, C: Drain>(x: &Crossbar<A, C>, req: C::Req)
    where C::Req: Routable<A>
    requires
        x.wf(),
    ensures
        forall|i: int, j: int|
            0 <= i < x.ranges().len() && 0 <= j < x.ranges().len() && i != j ==> apart(
                #[trigger] x.ranges()[i],
                #[trigger] x.ranges()[j],
            ),
        !x.routes(req.route().key()) ==> !x.accepts(req) && x.refusal(req) == Fault::OutOfRange,
{
    assert forall|i: int, j: int|
        0 <= i < x.ranges().len() && 0 <= j < x.ranges().len() && i != j implies apart(
            #[trigger] x.ranges()[i],
            #[trigger] x.ranges()[j],
        ) by {
        lemma_ranges_disjoint(x.ranges(), i, j, 0);
    }
}

/// Sum of the stages' backlogs.
pub open spec fn total_backlog<C: Drain>(cs: Seq<C>) -> nat
    decreases cs.len(),
{
    if cs.len() == 0 {
        0
    } else {
        total_backlog(cs.drop_last()) + cs.last().backlog()
    }
}

proof fn lemma_total_backlog_update<C: Drain>(cs: Seq<C>, i: int, c: C)
    requires
        0 <= i < cs.len(),
    ensures
        c.backlog() < cs[i].backlog() ==> total_backlog(cs.update(i, c)) < total_backlog(cs),
        c.backlog() <= cs[i].backlog() ==> total_backlog(cs.update(i, c)) <= total_backlog(cs),
    decreases cs.len(),
{
    let us = cs.update(i, c);
    if i == cs.len() - 1 {
        assert(us.drop_last() =~= cs.drop_last());
    } else {
        assert(us.drop_last() =~= cs.drop_last().update(i, c));
        lemma_total_backlog_update(cs.drop_last(), i, c);
    }
}

/// One `pop` of a router: the children before `k` were popped and had nothing,
/// child `k` (if `k` is a child) handed out `r`, the children after it were
/// not touched; `r` is nothing when no child had anything.
pub open spec fn popped_at<C: Drain>(before: Seq<C>, after: Seq<C>, r: Option<C::Resp>, k: int) -> bool {
    &&& 0 <= k <= before.len()
    &&& after.len() == before.len()
    &&& forall|j: int| 0 <= j < k ==> (#[trigger] before[j]).popped(after[j], None)
    &&& forall|j: int| k < j < before.len() ==> #[trigger] after[j] == before[j]
    &&& k < before.len() ==> r is Some && before[k].popped(after[k], r)
    &&& k == before.len() ==> r is None
}

/// One `tick` of a router: the children before `k` ticked without fault, child
/// `k` (if `k` is a child) ticked with the fault `r`, the children after it
/// were not touched; `r` is `Ok` when every child ticked without fault.
pub open spec fn ticked_at<C: Drain>(before: Seq<C>, after: Seq<C>, r: Result<(), Fault>, k: int) -> bool {
    &&& 0 <= k <= before.len()
    &&& after.len() == before.len()
    &&& forall|j: int| 0 <= j < k ==> (#[trigger] before[j]).ticked(after[j], Ok(()))
    &&& forall|j: int| k < j < before.len() ==> #[trigger] after[j] == before[j]
    &&& k < before.len() ==> r is Err && before[k].ticked(after[k], r)
    &&& k == before.len() ==> r is Ok
}

/// Routes each request to the stage that owns its address, over a partition of
/// disjoint half-open address ranges.
pub struct Crossbar<A: Addr, C: Drain> {
    ranges: Vec<(A, A)>,
    children: Vec<C>,
}

impl<A: Addr, C: Drain> Crossbar<A, C> where C::Req: Routable<A> {
    /// The registered ranges `[start, end)`, ordered by start.
    pub closed spec fn ranges(&self) -> Seq<(u64, u64)> {
        Seq::new(self.ranges@.len(), |i: int| (self.ranges@[i].0.key(), self.ranges@[i].1.key()))
    }

    /// The stage of each range, in the same order.
    pub closed spec fn children(&self) -> Seq<C> {
        self.children@
    }

    /// Whether some registered range holds `a`.
    pub open spec fn routes(&self, a: u64) -> bool {
        exists|i: int| 0 <= i < self.ranges().len() && covers(#[trigger] self.ranges()[i], a)
    }

    /// The index of the range that holds `a`, where one does.
    pub open spec fn owner(&self, a: u64) -> int {
        choose|i: int| 0 <= i < self.ranges().len() && covers(#[trigger] self.ranges()[i], a)
    }

    /// The invariant: one stage per range, ranges non-empty, ordered by start
    /// and disjoint, every stage well formed.
    pub open spec fn table_ok(&self) -> bool {
        &&& self.ranges().len() == self.children().len()
        &&& ranges_ok(self.ranges())
        &&& forall|i: int| 0 <= i < self.children().len() ==> (#[trigger] self.children()[i]).wf()
    }

    pub fn new() -> (r: Self)
        ensures
            r.wf(),
            r.ranges() == Seq::<(u64, u64)>::empty(),
            r.children() == Seq::<C>::empty(),
    {
        let r = Crossbar { ranges: Vec::new(), children: Vec::new() };
        assert(r.ranges() =~= Seq::<(u64, u64)>::empty());
        r
    }

    /// Whether `[start, end)` may be registered: non-empty and disjoint from
    /// every registered range. Registering any other range is a fault.
    pub fn fits(&self, start: A, end: A) -> (r: bool)
        ensures
            r <==> (start.key() < end.key() && forall|i: int|
                0 <= i < self.ranges().len() ==> apart(#[trigger] self.ranges()[i], (start.key(), end.key()))),
    {
        let s = start.to_key();
        let e = end.to_key();
        if s >= e {
            return false;
        }
        let ghost rs = self.ranges();
        let mut i: usize = 0;
        while i < self.ranges.len()
            invariant
                i <= self.ranges@.len(),
                rs == self.ranges(),
                forall|j: int| 0 <= j < i ==> apart(#[trigger] rs[j], (s, e)),
                s == start.key(),
                e == end.key(),
            decreases self.ranges@.len() - i,
        {
            let rs_ = self.ranges[i].0.to_key();
            let re_ = self.ranges[i].1.to_key();
            assert(rs[i as int] == (rs_, re_));
            if !(re_ <= s || e <= rs_) {
                assert(!apart(self.ranges()[i as int], (start.key(), end.key())));
                return false;
            }
            i = i + 1;
        }
        true
    }

    /// Registers the stage `inner` for the addresses `[start, end)`, at its
    /// place by start.
    pub fn with(self, start: A, end: A, inner: Box<C>) -> (r: Self)
        requires
            self.wf(),
            inner.wf(),
            start.key() < end.key(),
            forall|i: int| 0 <= i < self.ranges().len() ==> apart(#[trigger] self.ranges()[i], (start.key(), end.key())),
        ensures
            r.wf(),
            ranges_ok(r.ranges()),
            r.ranges().to_set() == self.ranges().to_set().insert((start.key(), end.key())),
            exists|p: int|
                0 <= p <= self.ranges().len() && (forall|j: int| 0 <= j < p ==> (#[trigger] self.ranges()[j]).0 < start.key())
                    && (forall|j: int| p <= j < self.ranges().len() ==> (#[trigger] self.ranges()[j]).0 > start.key())
                    && #[trigger] r.ranges() == self.ranges().insert(p, (start.key(), end.key()))
                    && r.children() == self.children().insert(p, *inner),
    {
        let s = start.to_key();
        let ghost rs = self.ranges();
        let ghost cs0 = self.children();
        let mut this = self;
        let mut p: usize = 0;
        while p < this.ranges.len() && this.ranges[p].0.to_key() < s
            invariant
                p <= this.ranges@.len(),
                rs == this.ranges(),
                forall|j: int| 0 <= j < p ==> (#[trigger] rs[j]).0 < s,
            decreases this.ranges@.len() - p,
        {
            p = p + 1;
        }
        assert(p == rs.len() || rs[p as int].0 >= s);
        this.ranges.insert(p, (start, end));
        this.children.insert(p, *inner);
        proof {
            let e = end.key();
            assert(this.ranges() =~= rs.insert(p as int, (s, e)));
            let ns = this.ranges();
            assert forall|j: int| p <= j < rs.len() implies (#[trigger] rs[j]).0 > s by {
                if j > p {
                    assert(rs[p as int].1 <= rs[j].0);
                }
                assert(apart(rs[j], (s, e)));
            }
            assert forall|i: int, j: int| 0 <= i < j < ns.len() implies (#[trigger] ns[i]).1 <= (#[trigger] ns[j]).0 by {
                if j == p {
                    assert(apart(rs[i], (s, e)));
                } else if i == p {
                    assert(apart(rs[j - 1], (s, e)));
                } else if i > p {
                    assert(rs[i - 1].1 <= rs[j - 1].0);
                } else if j > p {
                    assert(rs[i].1 <= rs[j - 1].0);
                }
            }
            assert forall|i: int| 0 <= i < this.children@.len() implies (#[trigger] this.children@[i]).wf() by {
                if i < p {
                    assert(this.children@[i] == cs0[i]);
                } else if i > p {
                    assert(this.children@[i] == cs0[i - 1]);
                }
            }
            assert(ns.to_set() =~= rs.to_set().insert((s, e))) by {
                assert forall|x: (u64, u64)| ns.to_set().contains(x) <==> rs.to_set().insert((s, e)).contains(x) by {
                    if ns.contains(x) {
                        let a = choose|a: int| 0 <= a < ns.len() && ns[a] == x;
                        if a < p {
                            assert(rs[a] == x);
                        } else if a > p {
                            assert(rs[a - 1] == x);
                        }
                    }
                    if rs.contains(x) {
                        let a = choose|a: int| 0 <= a < rs.len() && rs[a] == x;
                        if a < p {
                            assert(ns[a] == x);
                        } else {
                            assert(ns[a + 1] == x);
                        }
                    }
                    if x == (s, e) {
                        assert(ns[p as int] == x);
                    }
                }
            }
        }
        assert(this.children() == cs0.insert(p as int, *inner));
        this
    }

    /// Predecessor search: the range with the greatest start at or below `a`,
    /// if it holds `a`.
    fn find(&self, a: u64) -> (r: Option<usize>)
        requires
            self.wf(),
        ensures
            r is None <==> !self.routes(a),
            r matches Some(i) ==> i < self.ranges().len() && covers(self.ranges()[i as int], a) && i == self.owner(a),
    {
        let ghost rs = self.ranges();
        let mut i: usize = 0;
        let mut hi: usize = self.ranges.len();
        while i < hi
            invariant
                i <= hi <= self.ranges@.len(),
                rs == self.ranges(),
                ranges_ok(rs),
                forall|j: int| 0 <= j < i ==> (#[trigger] rs[j]).0 <= a,
                forall|j: int| hi <= j < rs.len() ==> (#[trigger] rs[j]).0 > a,
            decreases hi - i,
        {
            let mid = i + (hi - i) / 2;
            if self.ranges[mid].0.to_key() <= a {
                proof {
                    assert forall|j: int| 0 <= j < mid implies (#[trigger] rs[j]).0 <= a by {
                        assert(rs[j].1 <= rs[mid as int].0);
                    }
                }
                i = mid + 1;
            } else {
                proof {
                    assert forall|j: int| mid < j < rs.len() implies (#[trigger] rs[j]).0 > a by {
                        assert(rs[mid as int].1 <= rs[j].0);
                    }
                }
                hi = mid;
            }
        }
        proof {
            assert(i == rs.len() || rs[i as int].0 > a);
            assert forall|j: int| i <= j < rs.len() implies !covers(#[trigger] rs[j], a) by {
                if j > i {
                    assert(rs[i as int].1 <= rs[j].0);
                }
            }
        }
        if i == 0 || self.ranges[i - 1].1.to_key() <= a {
            proof {
                assert forall|j: int| 0 <= j < rs.len() implies !covers(#[trigger] rs[j], a) by {
                    if j < i - 1 {
                        assert(rs[j].1 <= rs[i - 1].0);
                    }
                }
            }
            return None;
        }
        let k = i - 1;
        proof {
            assert(covers(rs[k as int], a));
            let o = self.owner(a);
            assert(0 <= o < rs.len() && covers(rs[o], a));
            if o != k {
                lemma_ranges_disjoint(rs, o, k as int, a);
            }
        }
        Some(k)
    }
}

impl<A: Addr, C: Drain> Drain for Crossbar<A, C> where C::Req: Routable<A> {
    type Req = C::Req;
    type Resp = C::Resp;

    open spec fn wf(&self) -> bool {
        self.table_ok()
    }

    open spec fn backlog(&self) -> nat {
        total_backlog(self.children())
    }

    /// A request is taken when a range holds its address and that range's
    /// stage takes it.
    open spec fn accepts(&self, req: C::Req) -> bool {
        let a = req.route().key();
        self.routes(a) && self.children()[self.owner(a)].accepts(req)
    }

    open spec fn refusal(&self, req: C::Req) -> Fault {
        let a = req.route().key();
        if self.routes(a) {
            self.children()[self.owner(a)].refusal(req)
        } else {
            Fault::OutOfRange
        }
    }

    open spec fn ticked(&self, after: Self, r: Result<(), Fault>) -> bool {
        &&& after.ranges() == self.ranges()
        &&& exists|k: int| #[trigger] ticked_at(self.children(), after.children(), r, k)
    }

    open spec fn pushed(&self, req: C::Req, after: Self) -> bool {
        let i = self.owner(req.route().key());
        &&& after.ranges() == self.ranges()
        &&& after.children().len() == self.children().len()
        &&& self.children()[i].pushed(req, after.children()[i])
        &&& forall|j: int| 0 <= j < self.children().len() && j != i ==> #[trigger] after.children()[j] == self.children()[j]
    }

    open spec fn popped(&self, after: Self, r: Option<C::Resp>) -> bool {
        &&& after.ranges() == self.ranges()
        &&& exists|k: int| #[trigger] popped_at(self.children(), after.children(), r, k)
    }

    fn check(&self, req: &C::Req) -> (r: Result<(), Fault>) {
        match self.find(req.addr().to_key()) {
            None => Err(Fault::OutOfRange),
            Some(i) => self.children[i].check(req),
        }
    }

    fn tick(&mut self) -> (r: Result<(), Fault>) {
        let ghost cs0 = self.children@;
        let mut i: usize = 0;
        while i < self.children.len()
            invariant
                i <= self.children@.len(),
                self.wf(),
                self.ranges@ == old(self).ranges@,
                self.children@.len() == cs0.len(),
                cs0 == old(self).children@,
                forall|j: int| 0 <= j < i ==> (#[trigger] cs0[j]).ticked(self.children@[j], Ok(())),
                forall|j: int| i <= j < cs0.len() ==> #[trigger] self.children@[j] == cs0[j],
            decreases self.children@.len() - i,
        {
            let ghost cs = self.children@;
            let t = self.children[i].tick();
            assert forall|j: int| 0 <= j < self.children@.len() implies (#[trigger] self.children@[j]).wf() by {
                if j != i {
                    assert(self.children@[j] == cs[j]);
                }
            }
            proof {
                assert(cs[i as int] == cs0[i as int]);
                assert(cs0[i as int].ticked(self.children@[i as int], t));
                assert forall|j: int| 0 <= j < i implies (#[trigger] cs0[j]).ticked(self.children@[j], Ok(())) by {
                    assert(self.children@[j] == cs[j]);
                }
                assert forall|j: int| i < j < cs0.len() implies #[trigger] self.children@[j] == cs0[j] by {
                    assert(self.children@[j] == cs[j]);
                }
            }
            if let Err(_) = t {
                assert(ticked_at(old(self).children(), self.children(), t, i as int));
                return t;
            }
            proof {
                assert(t is Ok);
                assert(t == Ok::<(), Fault>(t->Ok_0));
            }
            i = i + 1;
        }
        assert(ticked_at(old(self).children(), self.children(), Ok(()), cs0.len() as int));
        Ok(())
    }

    fn push(&mut self, req: C::Req) {
        let k = match self.find(req.addr().to_key()) {
            Some(k) => k,
            None => {
                return;
            },
        };
        let ghost cs = self.children@;
        self.children[k].push(req);
        proof {
            assert forall|j: int| 0 <= j < self.children@.len() implies (#[trigger] self.children@[j]).wf() by {
                if j != k {
                    assert(self.children@[j] == cs[j]);
                }
            }
        }
    }

    fn pop(&mut self) -> (r: Option<C::Resp>) {
        let ghost cs0 = self.children@;
        let mut i: usize = 0;
        while i < self.children.len()
            invariant
                i <= self.children@.len(),
                self.wf(),
                self.ranges@ == old(self).ranges@,
                self.children@.len() == cs0.len(),
                cs0 == old(self).children@,
                total_backlog(self.children@) <= total_backlog(cs0),
                forall|j: int| 0 <= j < i ==> (#[trigger] cs0[j]).popped(self.children@[j], None),
                forall|j: int| i <= j < cs0.len() ==> #[trigger] self.children@[j] == cs0[j],
            decreases self.children@.len() - i,
        {
            let ghost cs = self.children@;
            let got = self.children[i].pop();
            proof {
                assert forall|j: int| 0 <= j < self.children@.len() implies (#[trigger] self.children@[j]).wf() by {
                    if j != i {
                        assert(self.children@[j] == cs[j]);
                    }
                }
                assert(self.children@ == cs.update(i as int, self.children@[i as int]));
                lemma_total_backlog_update(cs, i as int, self.children@[i as int]);
            }
            proof {
                assert(cs[i as int] == cs0[i as int]);
                assert(cs0[i as int].popped(self.children@[i as int], got));
                assert forall|j: int| 0 <= j < i implies (#[trigger] cs0[j]).popped(self.children@[j], None) by {
                    assert(self.children@[j] == cs[j]);
                }
                assert forall|j: int| i < j < cs0.len() implies #[trigger] self.children@[j] == cs0[j] by {
                    assert(self.children@[j] == cs[j]);
                }
            }
            if got.is_some() {
                assert(popped_at(old(self).children(), self.children(), got, i as int));
                return got;
            }
            i = i + 1;
        }
        assert(popped_at(old(self).children(), self.children(), None, cs0.len() as int));
        None
    }
}

} // verus!
