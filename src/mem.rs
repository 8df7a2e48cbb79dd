use std::collections::HashMap;
use std::collections::VecDeque;
use vstd::prelude::*;

use crate::crossbar::Routable;
use crate::drain::Drain;
use crate::drain::Fault;

verus! {

broadcast use vstd::std_specs::hash::group_hash_axioms, vstd::array::group_array_axioms;

/// A request of `WIDTH` bytes: a write where any mask bit is set, a read otherwise.
pub struct MemReq<const WIDTH: usize> {
    pub id: usize,
    pub addr: u64,
    pub wbe: [bool; WIDTH],
    pub wdata: [u8; WIDTH],
}

/// The answer to a request: its id and the content at its address after the access.
pub struct MemResp<const WIDTH: usize> {
    pub id: usize,
    pub rdata: [u8; WIDTH],
}

impl<const WIDTH: usize> Routable<u64> for MemReq<WIDTH> {
    open spec fn route(&self) -> u64 {
        self.addr
    }

    fn addr(&self) -> (r: u64) {
        self.addr
    }
}

/// `WIDTH` zero bytes.
pub open spec fn zeros(width: nat) -> Seq<u8> {
    Seq::new(width, |i: int| 0u8)
}

/// Whether any bit of the mask is set.
pub open spec fn any_set(mask: Seq<bool>) -> bool {
    exists|i: int| 0 <= i < mask.len() && mask[i]
}

/// `prior` with the bytes of `data` written where `mask` is set.
pub open spec fn masked(prior: Seq<u8>, mask: Seq<bool>, data: Seq<u8>) -> Seq<u8> {
    Seq::new(prior.len(), |i: int| if mask[i] { data[i] } else { prior[i] })
}

/// A mask that writes nothing changes nothing; a mask that writes every byte
/// leaves exactly the written data. So a full write of `data` followed by a
/// read returns `data`, whatever was stored before.
pub proof fn lemma_write_then_read(prior: Seq<u8>, full: Seq<bool>, data: Seq<u8>, none: Seq<bool>, junk: Seq<u8>)
    requires
        prior.len() == data.len(),
        full.len() == data.len(),
        none.len() == data.len(),
        junk.len() == data.len(),
        forall|i: int| 0 <= i < full.len() ==> full[i],
        forall|i: int| 0 <= i < none.len() ==> !none[i],
    ensures
        masked(prior, full, data) == data,
        masked(masked(prior, full, data), none, junk) == data,
        !any_set(none),
{
    assert(masked(prior, full, data) =~= data);
    assert(masked(masked(prior, full, data), none, junk) =~= data);
}

/// A partial write changes exactly the bytes whose mask bit is set: those take
/// the written data, every other byte keeps its prior value.
pub proof fn lemma_partial_write(prior: Seq<u8>, mask: Seq<bool>, data: Seq<u8>, i: int)
    requires
        prior.len() == mask.len(),
        data.len() == mask.len(),
        0 <= i < prior.len(),
    ensures
        masked(prior, mask, data).len() == prior.len(),
        mask[i] ==> masked(prior, mask, data)[i] == data[i],
        !mask[i] ==> masked(prior, mask, data)[i] == prior[i],
        !mask[i] ==> masked(zeros(prior.len()), mask, data)[i] == 0,
{
}

/// Whether a mask bit is set, for the byte-wise loop.
fn mask_has_write<const WIDTH: usize>(mask: &[bool; WIDTH]) -> (r: bool)
    ensures
        r == any_set(mask@),
{
    let mut i: usize = 0;
    while i < WIDTH
        invariant
            i <= WIDTH,
            mask@.len() == WIDTH,
            forall|j: int| 0 <= j < i ==> !mask@[j],
        decreases WIDTH - i,
    {
        if mask[i] {
            return true;
        }
        i = i + 1;
    }
    false
}

/// Writes `data` into `buf` where `mask` is set.
fn apply_mask<const WIDTH: usize>(buf: &mut [u8; WIDTH], mask: &[bool; WIDTH], data: &[u8; WIDTH])
    ensures
        final(buf)@ == masked(old(buf)@, mask@, data@),
{
    let ghost b0 = buf@;
    let mut i: usize = 0;
    while i < WIDTH
        invariant
            i <= WIDTH,
            buf@.len() == WIDTH,
            b0.len() == WIDTH,
            forall|j: int| 0 <= j < i ==> buf@[j] == (if mask@[j] { data@[j] } else { b0[j] }),
            forall|j: int| i <= j < WIDTH ==> buf@[j] == b0[j],
        decreases WIDTH - i,
    {
        if mask[i] {
            buf[i] = data[i];
        }
        i = i + 1;
    }
    assert(buf@ =~= masked(b0, mask@, data@));
}

/// The timing engine behind a memory: decides when an admitted access completes.
pub trait DelaySimulator: Sized {
    /// The engine's internal invariant.
    spec fn wf(&self) -> bool;

    /// Addresses admitted and not yet reported complete by `pop`.
    spec fn pending(&self) -> Set<u64>;

    /// A bound on the completions that `pop` can still report before the next `tick`.
    spec fn backlog(&self) -> nat;

    /// The completed access that `pop` reports next, if any.
    spec fn ready(&self) -> Option<u64>;

    /// Whether the engine can take an access to `addr` at all.
    spec fn admits(&self, addr: u64) -> bool;

    /// The fault that `check` reports for an address the engine does not admit.
    spec fn refusal(&self, addr: u64) -> Fault;

    /// `after` and `r` are what one `tick` makes of the engine.
    spec fn ticked(&self, after: Self, r: Result<(), Fault>) -> bool;

    /// `after` is what admitting an access to `addr` makes of the engine.
    spec fn pushed(&self, addr: u64, is_write: bool, after: Self) -> bool;

    /// `after` is what one `pop` makes of the engine.
    spec fn popped(&self, after: Self) -> bool;

    /// Tells whether the engine can take an access to `addr`, and which fault
    /// it would be otherwise.
    fn check(&self, addr: u64) -> (r: Result<(), Fault>)
        requires
            self.wf(),
        ensures
            r is Ok <==> self.admits(addr),
            r is Err ==> r == Err::<(), Fault>(self.refusal(addr)),
    ;

    /// Advances the engine by one cycle.
    fn tick(&mut self) -> (r: Result<(), Fault>)
        requires
            old(self).wf(),
        ensures
            final(self).wf(),
            final(self).pending() == old(self).pending(),
            old(self).ticked(*final(self), r),
    ;

    /// Admits an access to `addr`.
    fn push(&mut self, addr: u64, is_write: bool)
        requires
            old(self).wf(),
            old(self).admits(addr),
            !old(self).pending().contains(addr),
        ensures
            final(self).wf(),
            final(self).pending() == old(self).pending().insert(addr),
            old(self).pushed(addr, is_write, *final(self)),
    ;

    /// Reports one completed access, if any.
    fn pop(&mut self) -> (r: Option<u64>)
        requires
            old(self).wf(),
        ensures
            final(self).wf(),
            r == old(self).ready(),
            old(self).popped(*final(self)),
            match r {
                Some(a) => {
                    &&& old(self).pending().contains(a)
                    &&& final(self).pending() == old(self).pending().remove(a)
                    &&& final(self).backlog() < old(self).backlog()
                },
                None => final(self).pending() == old(self).pending() && final(self).backlog() <= old(
                    self,
                ).backlog(),
            },
    ;
}

/// The immediate engine: every admitted access completes at once, in admission order.
pub struct NoDelay {
    queue: VecDeque<u64>,
}

impl NoDelay {
    /// Admitted accesses, oldest first.
    pub closed spec fn queue(&self) -> Seq<u64> {
        self.queue@
    }

    pub fn new() -> (r: NoDelay)
        ensures
            r.wf(),
            r.queue() == Seq::<u64>::empty(),
            r.pending() == Set::<u64>::empty(),
    {
        let r = NoDelay { queue: VecDeque::new() };
        assert(r.pending() =~= Set::<u64>::empty());
        r
    }
}

impl Default for NoDelay {
    fn default() -> (r: NoDelay)
        ensures
            r.wf(),
            r.queue() == Seq::<u64>::empty(),
            r.pending() == Set::<u64>::empty(),
    {
        let r = NoDelay::new();
        r
    }
}

impl DelaySimulator for NoDelay {
    open spec fn wf(&self) -> bool {
        self.queue().no_duplicates()
    }

    open spec fn pending(&self) -> Set<u64> {
        self.queue().to_set()
    }

    open spec fn backlog(&self) -> nat {
        self.queue().len()
    }

    open spec fn ready(&self) -> Option<u64> {
        if self.queue().len() > 0 {
            Some(self.queue()[0])
        } else {
            None
        }
    }

    open spec fn admits(&self, addr: u64) -> bool {
        true
    }

    /// Never reported: the immediate engine admits every address.
    open spec fn refusal(&self, addr: u64) -> Fault {
        Fault::Protocol
    }

    open spec fn ticked(&self, after: Self, r: Result<(), Fault>) -> bool {
        r is Ok && after.queue() == self.queue()
    }

    open spec fn pushed(&self, addr: u64, is_write: bool, after: Self) -> bool {
        after.queue() == self.queue().push(addr)
    }

    open spec fn popped(&self, after: Self) -> bool {
        if self.queue().len() > 0 {
            after.queue() == self.queue().drop_first()
        } else {
            after.queue() == self.queue()
        }
    }

    fn check(&self, addr: u64) -> (r: Result<(), Fault>) {
        Ok(())
    }

    fn tick(&mut self) -> (r: Result<(), Fault>) {
        Ok(())
    }

    fn push(&mut self, addr: u64, is_write: bool) {
        self.queue.push_back(addr);
        proof {
            assert(self.queue@.to_set() =~= old(self).queue@.to_set().insert(addr)) by {
                old(self).queue@.lemma_push_to_set_commute(addr);
            }
        }
    }

    fn pop(&mut self) -> (r: Option<u64>) {
        let r = self.queue.pop_front();
        proof {
            let q = old(self).queue@;
            if q.len() > 0 {
                assert(q =~= seq![q[0]] + q.drop_first());
                assert(self.queue@ =~= q.drop_first());
                assert(self.queue@.to_set() =~= q.to_set().remove(q[0])) by {
                    assert forall|x: u64| self.queue@.to_set().contains(x) <==> q.to_set().remove(q[0]).contains(x) by {
                        if self.queue@.contains(x) {
                            let j = choose|j: int| 0 <= j < self.queue@.len() && self.queue@[j] == x;
                            assert(q[j + 1] == x);
                        }
                        if q.contains(x) && x != q[0] {
                            let j = choose|j: int| 0 <= j < q.len() && q[j] == x;
                            assert(self.queue@[j - 1] == x);
                        }
                    }
                }
            }
        }
        r
    }
}

/// A memory endpoint: byte content for every touched address, at most one
/// request in flight per address, and a timing engine that decides when each
/// response becomes visible.
pub struct Mem<D: DelaySimulator, const WIDTH: usize> {
    sim: D,
    content: HashMap<u64, [u8; WIDTH]>,
    inflights: HashMap<u64, usize>,
}

impl<D: DelaySimulator, const WIDTH: usize> Mem<D, WIDTH> {
    /// The timing engine.
    pub closed spec fn sim(&self) -> D {
        self.sim
    }

    /// Content of every address touched so far.
    pub closed spec fn content(&self) -> Map<u64, Seq<u8>> {
        self.content@.map_values(|b: [u8; WIDTH]| b@)
    }

    /// Addresses with a request in flight, each with the request's id.
    pub closed spec fn inflight(&self) -> Map<u64, usize> {
        self.inflights@
    }

    /// What a read of `addr` returns: its content, or zeros if never touched.
    pub open spec fn stored(&self, addr: u64) -> Seq<u8> {
        if self.content().contains_key(addr) {
            self.content()[addr]
        } else {
            zeros(WIDTH as nat)
        }
    }

    /// The invariant: the engine is well formed and has pending exactly the
    /// addresses in flight, and every stored buffer is `WIDTH` bytes long.
    pub open spec fn mem_ok(&self) -> bool {
        &&& self.sim().wf()
        &&& self.sim().pending() == self.inflight().dom()
        &&& forall|a: u64| #[trigger] self.content().contains_key(a) ==> self.content()[a].len() == WIDTH
    }

    pub fn new(sim: D) -> (r: Self)
        requires
            sim.wf(),
            sim.pending() == Set::<u64>::empty(),
        ensures
            r.wf(),
            r.sim() == sim,
            r.content() == Map::<u64, Seq<u8>>::empty(),
            r.inflight() == Map::<u64, usize>::empty(),
    {
        let r = Mem { sim, content: HashMap::new(), inflights: HashMap::new() };
        assert(r.inflights@.dom() =~= Set::<u64>::empty());
        assert(r.content() =~= Map::<u64, Seq<u8>>::empty());
        r
    }
}

impl<D: DelaySimulator, const WIDTH: usize> Drain for Mem<D, WIDTH> {
    type Req = MemReq<WIDTH>;
    type Resp = MemResp<WIDTH>;

    open spec fn wf(&self) -> bool {
        self.mem_ok()
    }

    open spec fn backlog(&self) -> nat {
        self.sim().backlog()
    }

    /// A request is taken unless its address is in flight or the engine refuses it.
    open spec fn accepts(&self, req: MemReq<WIDTH>) -> bool {
        !self.inflight().contains_key(req.addr) && self.sim().admits(req.addr)
    }

    open spec fn refusal(&self, req: MemReq<WIDTH>) -> Fault {
        if self.inflight().contains_key(req.addr) {
            Fault::DuplicateInFlight
        } else {
            self.sim().refusal(req.addr)
        }
    }

    open spec fn ticked(&self, after: Self, r: Result<(), Fault>) -> bool {
        &&& self.sim().ticked(after.sim(), r)
        &&& after.content() == self.content()
        &&& after.inflight() == self.inflight()
    }

    /// The write mask is applied at once; the engine is told of the access and
    /// its direction.
    open spec fn pushed(&self, req: MemReq<WIDTH>, after: Self) -> bool {
        &&& after.inflight() == self.inflight().insert(req.addr, req.id)
        &&& after.content() == self.content().insert(
            req.addr,
            masked(self.stored(req.addr), req.wbe@, req.wdata@),
        )
        &&& self.sim().pushed(req.addr, any_set(req.wbe@), after.sim())
    }

    open spec fn popped(&self, after: Self, r: Option<MemResp<WIDTH>>) -> bool {
        &&& after.content() == self.content()
        &&& self.sim().popped(after.sim())
        &&& match self.sim().ready() {
            Some(a) => {
                &&& r matches Some(resp) && resp.id == self.inflight()[a] && resp.rdata@ == self.stored(a)
                &&& after.inflight() == self.inflight().remove(a)
            },
            None => r is None && after.inflight() == self.inflight(),
        }
    }

    fn check(&self, req: &MemReq<WIDTH>) -> (r: Result<(), Fault>) {
        if self.inflights.contains_key(&req.addr) {
            return Err(Fault::DuplicateInFlight);
        }
        self.sim.check(req.addr)
    }

    fn tick(&mut self) -> (r: Result<(), Fault>) {
        self.sim.tick()
    }

    fn push(&mut self, req: MemReq<WIDTH>) {
        let is_write = mask_has_write(&req.wbe);
        self.sim.push(req.addr, is_write);
        self.inflights.insert(req.addr, req.id);
        let mut buf: [u8; WIDTH] = match self.content.get(&req.addr) {
            Some(b) => *b,
            None => [0u8; WIDTH],
        };
        proof {
            if !old(self).content@.contains_key(req.addr) {
                assert(buf@ =~= zeros(WIDTH as nat));
            }
        }
        apply_mask(&mut buf, &req.wbe, &req.wdata);
        self.content.insert(req.addr, buf);
        proof {
            assert(self.inflights@.dom() =~= old(self).inflights@.dom().insert(req.addr));
            assert(self.content() =~= old(self).content().insert(
                req.addr,
                masked(old(self).stored(req.addr), req.wbe@, req.wdata@),
            ));
        }
    }

    fn pop(&mut self) -> (r: Option<MemResp<WIDTH>>) {
        match self.sim.pop() {
            Some(addr) => {
                let rdata: [u8; WIDTH] = match self.content.get(&addr) {
                    Some(b) => *b,
                    None => [0u8; WIDTH],
                };
                proof {
                    if !self.content@.contains_key(addr) {
                        assert(rdata@ =~= zeros(WIDTH as nat));
                    }
                }
                let id = match self.inflights.remove(&addr) {
                    Some(id) => id,
                    None => 0,
                };
                proof {
                    assert(self.inflights@.dom() =~= old(self).inflights@.dom().remove(addr));
                    assert(old(self).inflight().contains_key(addr));
                    assert(self.inflight() =~= old(self).inflight().remove(addr));
                    if old(self).content@.contains_key(addr) {
                        assert(old(self).content().contains_key(addr));
                        assert(rdata@ == old(self).stored(addr));
                    }
                }
                Some(MemResp { id, rdata })
            },
            None => None,
        }
    }
}

} // verus!
