use std::collections::HashMap;
use std::collections::VecDeque;
use vstd::prelude::*;
use vstd::std_specs::iter::IteratorSpec;

use crate::drain::Fault;

verus! {

broadcast use vstd::std_specs::hash::group_hash_axioms;

/// Beats of one access that the engine has accepted and completed.
#[derive(Clone, Copy, Debug, PartialEq, Eq, Structural)]
pub struct AddrProgress {
    pub sent: u64,
    pub recv: u64,
    pub is_write: bool,
}

impl AddrProgress {
    /// Address of the next beat to hand to the engine.
    pub fn next_send(&self, base: u64, transfer: u64) -> (r: u64)
        requires
            base + transfer * self.sent <= u64::MAX,
        ensures
            r == base + transfer * self.sent,
    {
        assert(transfer * self.sent <= u64::MAX) by (nonlinear_arith)
            requires
                base + transfer * self.sent <= u64::MAX,
        ;
        base + transfer * self.sent
    }
}

/// Bookkeeping for an engine whose transfers are narrower than an access: each
/// access of `WIDTH` bytes at an aligned address is split into `multiplicity`
/// beats, which must complete in ascending address order.
pub struct Progress<const WIDTH: usize> {
    transfer_width: u64,
    progress: HashMap<u64, AddrProgress>,
    done: VecDeque<u64>,
}

/// Beats per access.
pub open spec fn beats(width: nat, transfer_width: nat) -> nat {
    width / transfer_width
}

impl<const WIDTH: usize> Progress<WIDTH> {
    /// Bytes per beat.
    pub closed spec fn transfer_width(&self) -> u64 {
        self.transfer_width
    }

    /// Accesses still waiting for beats, by aligned address.
    pub closed spec fn entries(&self) -> Map<u64, AddrProgress> {
        self.progress@
    }

    /// Completed accesses not yet reported, oldest first.
    pub closed spec fn done(&self) -> Seq<u64> {
        self.done@
    }

    pub open spec fn mult(&self) -> nat {
        beats(WIDTH as nat, self.transfer_width() as nat)
    }

    pub closed spec fn wf(&self) -> bool {
        &&& self.transfer_width > 0
        &&& WIDTH > 0
        &&& WIDTH <= u64::MAX
        &&& (WIDTH as nat) % (self.transfer_width as nat) == 0
        &&& forall|a: u64| #[trigger]
            self.progress@.contains_key(a) ==> {
                &&& (a as nat) % (WIDTH as nat) == 0
                &&& a + WIDTH <= u64::MAX + 1
                &&& self.progress@[a].recv < self.mult()
                &&& self.progress@[a].sent <= self.mult()
            }
    }

    /// An empty table for an engine that moves `transfer_width` bytes per beat.
    pub fn new(transfer_width: u64) -> (r: Result<Self, Fault>)
        ensures
            (transfer_width == 0 || WIDTH == 0 || WIDTH > u64::MAX || (WIDTH as nat) % (transfer_width as nat) != 0) <==> r
                == Err::<Self, Fault>(Fault::Misconfigured),
            r is Ok <==> !(transfer_width == 0 || WIDTH == 0 || WIDTH > u64::MAX || (WIDTH as nat) % (
            transfer_width as nat) != 0),
            r is Ok ==> {
                let p = r->Ok_0;
                &&& p.wf()
                &&& p.transfer_width() == transfer_width
                &&& p.entries() == Map::<u64, AddrProgress>::empty()
                &&& p.done() == Seq::<u64>::empty()
            },
    {
        if transfer_width == 0 || WIDTH == 0 || WIDTH as u128 > u64::MAX as u128 || (WIDTH as u64) % transfer_width != 0 {
            return Err(Fault::Misconfigured);
        }
        Ok(Progress { transfer_width, progress: HashMap::new(), done: VecDeque::new() })
    }

    /// Beats per access.
    pub fn multiplicity(&self) -> (r: u64)
        requires
            self.wf(),
        ensures
            r == self.mult(),
            r >= 1,
    {
        proof {
            let w = WIDTH as nat;
            let t = self.transfer_width as nat;
            assert(w / t >= 1) by (nonlinear_arith)
                requires
                    t > 0,
                    w > 0,
                    w % t == 0,
            ;
        }
        WIDTH as u64 / self.transfer_width
    }

    /// Whether `addr` is aligned to `WIDTH` with a whole access below `u64::MAX`.
    pub open spec fn aligned(addr: u64) -> bool {
        (addr as nat) % (WIDTH as nat) == 0 && addr + WIDTH <= u64::MAX + 1
    }

    /// Whether an access to `addr` can start: aligned and not already waiting for beats.
    pub open spec fn can_add(&self, addr: u64) -> bool {
        Self::aligned(addr) && !self.entries().contains_key(addr)
    }

    /// The aligned address of the access that the beat at `addr` belongs to.
    pub open spec fn base_of(addr: u64) -> u64 {
        (addr - (addr as nat) % (WIDTH as nat)) as u64
    }

    /// Whether the beat at `addr` is the next one its access expects.
    pub open spec fn beat_expected(&self, addr: u64) -> bool {
        let base = Self::base_of(addr);
        self.entries().contains_key(base) && base + self.entries()[base].recv * self.transfer_width() == addr
    }

    /// Tells whether `add(addr, ..)` may be called, and which fault it would be otherwise.
    pub fn check_add(&self, addr: u64) -> (r: Result<(), Fault>)
        requires
            self.wf(),
        ensures
            r is Ok <==> self.can_add(addr),
            !Self::aligned(addr) ==> r == Err::<(), Fault>(Fault::Misaligned),
            Self::aligned(addr) && self.entries().contains_key(addr) ==> r == Err::<(), Fault>(
                Fault::DuplicateInFlight,
            ),
    {
        if addr % (WIDTH as u64) != 0 || addr > u64::MAX - (WIDTH as u64 - 1) {
            return Err(Fault::Misaligned);
        }
        if self.progress.contains_key(&addr) {
            return Err(Fault::DuplicateInFlight);
        }
        Ok(())
    }

    /// Starts tracking an access to the aligned address `addr`.
    pub fn add(&mut self, addr: u64, is_write: bool)
        requires
            old(self).wf(),
            old(self).can_add(addr),
        ensures
            final(self).wf(),
            final(self).transfer_width() == old(self).transfer_width(),
            final(self).done() == old(self).done(),
            final(self).entries() == old(self).entries().insert(addr, AddrProgress { sent: 0, recv: 0, is_write }),
    {
        proof {
            let w = WIDTH as nat;
            let t = self.transfer_width as nat;
            assert(w / t >= 1) by (nonlinear_arith)
                requires
                    t > 0,
                    w > 0,
                    w % t == 0,
            ;
        }
        self.progress.insert(addr, AddrProgress { sent: 0, recv: 0, is_write });
    }

    /// Tells whether the beat at `addr` is the one expected; a beat that matches
    /// no access, or comes out of order, is a protocol fault.
    pub fn check_beat(&self, addr: u64) -> (r: Result<(), Fault>)
        requires
            self.wf(),
        ensures
            r is Ok <==> self.beat_expected(addr),
            r is Err ==> r == Err::<(), Fault>(Fault::Protocol),
    {
        let w = WIDTH as u64;
        assert(addr % w <= addr) by (nonlinear_arith)
            requires
                w > 0,
        ;
        let aligned = addr - addr % w;
        let prog = match self.progress.get(&aligned) {
            Some(p) => *p,
            None => {
                return Err(Fault::Protocol);
            },
        };
        proof {
            let t = self.transfer_width as nat;
            let k = prog.recv as nat;
            assert(k * t < w) by (nonlinear_arith)
                requires
                    k < (w as nat) / t,
                    t > 0,
            ;
        }
        if aligned + prog.recv * self.transfer_width != addr {
            return Err(Fault::Protocol);
        }
        Ok(())
    }

    /// Records the completion of the beat at `addr`. The last beat of an access
    /// ends its entry and makes the access complete.
    pub fn step(&mut self, addr: u64)
        requires
            old(self).wf(),
            old(self).beat_expected(addr),
        ensures
            final(self).wf(),
            final(self).transfer_width() == old(self).transfer_width(),
            ({
                let base = Self::base_of(addr);
                let e = old(self).entries();
                &&& e[base].recv + 1 == old(self).mult() ==> final(self).entries() == e.remove(base)
                    && final(self).done() == old(self).done().push(base)
                &&& e[base].recv + 1 < old(self).mult() ==> final(self).entries() == e.insert(
                    base,
                    AddrProgress { recv: (e[base].recv + 1) as u64, ..e[base] },
                ) && final(self).done() == old(self).done()
            }),
    {
        let w = WIDTH as u64;
        assert(addr % w <= addr) by (nonlinear_arith)
            requires
                w > 0,
        ;
        let aligned = addr - addr % w;
        let multiplicity = self.multiplicity();
        let prog = match self.progress.get(&aligned) {
            Some(p) => *p,
            None => {
                return;
            },
        };
        if prog.recv == multiplicity - 1 {
            self.progress.remove(&aligned);
            self.done.push_back(aligned);
        } else {
            self.progress.insert(aligned, AddrProgress { recv: prog.recv + 1, ..prog });
        }
    }

    /// Aligned addresses of the accesses still waiting for beats.
    pub fn in_progress(&self) -> (r: Vec<u64>)
        ensures
            r@.to_set() == self.entries().dom(),
            r@.no_duplicates(),
    {
        let ghost ks = self.progress.keys().remaining();
        let mut out: Vec<u64> = Vec::new();
        for k in it: self.progress.keys()
            invariant
                it.seq() == ks,
                out@ == ks.take(it.index() as int).map_values(|x: &u64| *x),
        {
            out.push(*k);
            proof {
                assert(out@ =~= ks.take(it.index() as int + 1).map_values(|x: &u64| *x));
            }
        }
        proof {
            assert(out@ =~= ks.map_values(|x: &u64| *x));
            assert(ks.unref() =~= ks.map_values(|x: &u64| *x));
        }
        out
    }

    /// The next beat of the access at `aligned` to hand to the engine, with its
    /// direction, if some beat of it has not been accepted yet.
    pub fn next_beat(&self, aligned: u64) -> (r: Option<(u64, bool)>)
        requires
            self.wf(),
        ensures
            !self.entries().contains_key(aligned) ==> r is None,
            self.entries().contains_key(aligned) ==> {
                let e = self.entries()[aligned];
                &&& e.sent == self.mult() ==> r is None
                &&& e.sent < self.mult() ==> r == Some(
                    ((aligned + self.transfer_width() * e.sent) as u64, e.is_write),
                )
            },
    {
        let multiplicity = self.multiplicity();
        match self.progress.get(&aligned) {
            Some(p) => {
                if p.sent == multiplicity {
                    None
                } else {
                    proof {
                        let w = WIDTH as nat;
                        let t = self.transfer_width as nat;
                        let k = p.sent as nat;
                        assert(t * k < w) by (nonlinear_arith)
                            requires
                                k < w / t,
                                t > 0,
                        ;
                    }
                    Some((p.next_send(aligned, self.transfer_width), p.is_write))
                }
            },
            None => None,
        }
    }

    /// Records that the engine accepted the next beat of the access at `aligned`.
    pub fn mark_sent(&mut self, aligned: u64)
        requires
            old(self).wf(),
        ensures
            final(self).wf(),
            final(self).transfer_width() == old(self).transfer_width(),
            final(self).done() == old(self).done(),
            ({
                let e = old(self).entries();
                (e.contains_key(aligned) && e[aligned].sent < old(self).mult()) ==> final(self).entries() == e.insert(
                    aligned,
                    AddrProgress { sent: (e[aligned].sent + 1) as u64, ..e[aligned] },
                )
            }),
            !(old(self).entries().contains_key(aligned) && old(self).entries()[aligned].sent < old(self).mult())
                ==> final(self).entries() == old(self).entries(),
    {
        let multiplicity = self.multiplicity();
        let prog = match self.progress.get(&aligned) {
            Some(p) => *p,
            None => {
                return;
            },
        };
        if prog.sent < multiplicity {
            self.progress.insert(aligned, AddrProgress { sent: prog.sent + 1, ..prog });
        }
    }

    /// Hands out the oldest completed access.
    pub fn pop(&mut self) -> (r: Option<u64>)
        requires
            old(self).wf(),
        ensures
            final(self).wf(),
            final(self).transfer_width() == old(self).transfer_width(),
            final(self).entries() == old(self).entries(),
            old(self).done().len() > 0 ==> r == Some(old(self).done()[0]) && final(self).done()
                == old(self).done().drop_first(),
            old(self).done().len() == 0 ==> r is None && final(self).done() == old(self).done(),
    {
        self.done.pop_front()
    }
}

} // verus!
