//! [`DownloadQueue`]: which of a ring of readback buffers to copy into, to
//! map, and to read and unmap next.
//!
//! The buffers themselves, and the flags their map callbacks set, are kept by
//! the caller; the queue decides which buffer each step uses.

use vstd::prelude::*;

verus! {

/// The position of a ring of `depth` readback buffers: the next buffer to
/// hand out for copying and mapping, the next buffer to read and unmap, and
/// whether the two positions being equal means that every buffer is waiting.
pub struct DownloadQueue {
    depth: usize,
    next_buffer: usize,
    next_flag: usize,
    possibly_full: bool,
}

impl DownloadQueue {
    #[verifier::type_invariant]
    spec fn positions_in_ring(&self) -> bool {
        &&& self.depth == 0 ==> self.next_buffer == 0 && self.next_flag == 0 && !self.possibly_full
        &&& self.depth > 0 ==> self.next_buffer < self.depth && self.next_flag < self.depth
    }

    /// The number of buffers in the ring.
    pub closed spec fn spec_depth(&self) -> nat {
        self.depth as nat
    }

    /// The number of buffers that were mapped and not yet unmapped.
    pub closed spec fn waiting_count(&self) -> nat {
        if self.next_buffer == self.next_flag {
            if self.possibly_full {
                self.depth as nat
            } else {
                0
            }
        } else if self.next_buffer > self.next_flag {
            (self.next_buffer - self.next_flag) as nat
        } else {
            (self.next_buffer + self.depth - self.next_flag) as nat
        }
    }

    /// The position in the ring of the buffer to read next: the oldest
    /// waiting one, or, when none waits, the one after the last read.
    pub closed spec fn oldest(&self) -> nat {
        self.next_flag as nat
    }

    /// The buffers that were mapped and not yet unmapped, oldest first.
    pub closed spec fn waiting(&self) -> Seq<usize> {
        Seq::new(self.waiting_count(), |i: int| ((self.next_flag + i) % (self.depth as int)) as usize)
    }

    /// A queue over `depth` buffers, none of them mapped.
    pub fn new(depth: usize) -> (r: DownloadQueue)
        ensures
            r.spec_depth() == depth,
            r.oldest() == 0,
            r.waiting() == Seq::<usize>::empty(),
    {
        let r = DownloadQueue { depth, next_buffer: 0, next_flag: 0, possibly_full: false };
        assert(r.waiting() =~= Seq::<usize>::empty());
        r
    }

    /// No buffer is waiting to be read.
    pub fn empty(&self) -> (r: bool)
        ensures
            r == (self.waiting().len() == 0),
    {
        proof {
            use_type_invariant(self);
        }
        (self.next_buffer == self.next_flag) && !self.possibly_full
    }

    /// Every buffer is waiting to be read.
    pub fn full(&self) -> (r: bool)
        ensures
            r == (self.spec_depth() > 0 && self.waiting().len() == self.spec_depth()),
    {
        proof {
            use_type_invariant(self);
        }
        (self.next_buffer == self.next_flag) && self.possibly_full
    }

    /// The buffer to read next: the oldest waiting one, if any.
    pub fn mapped_buffer(&self) -> (r: Option<usize>)
        ensures
            match r {
                Some(i) => self.waiting().len() > 0 && i == self.waiting()[0],
                None => self.waiting().len() == 0,
            },
    {
        proof {
            use_type_invariant(self);
        }
        if self.empty() {
            None
        } else {
            proof {
                let d = self.depth as int;
                let nf = self.next_flag as int;
                assert((nf + 0) % d == nf) by (nonlinear_arith)
                    requires 0 <= nf < d;
            }
            Some(self.next_flag)
        }
    }

    /// The buffer to copy into next, unless every buffer is waiting.
    pub fn active_buffer(&self) -> (r: Option<usize>)
        requires
            self.spec_depth() > 0,
        ensures
            match r {
                Some(i) => {
                    &&& self.waiting().len() < self.spec_depth()
                    &&& i == (self.oldest() + self.waiting().len()) % self.spec_depth()
                    &&& i < self.spec_depth()
                    &&& !self.waiting().contains(i)
                },
                None => self.waiting().len() == self.spec_depth(),
            },
    {
        proof {
            use_type_invariant(self);
        }
        if self.full() {
            None
        } else {
            proof {
                self.lemma_next_buffer_not_waiting();
            }
            Some(self.next_buffer)
        }
    }

    /// The next buffer is not among the waiting ones, unless all are waiting;
    /// it is the one after the newest waiting one.
    proof fn lemma_next_buffer_not_waiting(&self)
        requires
            self.positions_in_ring(),
            self.depth > 0,
        ensures
            self.next_buffer == (self.next_flag + self.waiting_count()) % (self.depth as int),
            self.waiting_count() <= self.depth,
            self.waiting_count() < self.depth ==> !self.waiting().contains(self.next_buffer),
    {
        let d = self.depth as int;
        let c = self.waiting_count() as int;
        let nf = self.next_flag as int;
        let nb = self.next_buffer as int;
        if nb >= nf {
            assert((nf + (nb - nf)) % d == nb) by (nonlinear_arith)
                requires 0 <= nf <= nb < d;
        } else {
            assert((nf + (nb + d - nf)) % d == nb) by (nonlinear_arith)
                requires 0 <= nb < nf < d;
        }
        if c == d {
            assert((nf + d) % d == nf) by (nonlinear_arith)
                requires 0 <= nf < d;
        }
        if c < d {
            assert forall|i: int| 0 <= i < c implies #[trigger] ((nf + i) % d) != nb by {
                if nb >= nf {
                    assert((nf + i) % d == nf + i) by (nonlinear_arith)
                        requires 0 <= nf, 0 <= i, nf + i < nb, nb < d;
                } else if nf + i < d {
                    assert((nf + i) % d == nf + i) by (nonlinear_arith)
                        requires 0 <= nf, 0 <= i, nf + i < d;
                } else {
                    assert((nf + i) % d == nf + i - d) by (nonlinear_arith)
                        requires d <= nf + i, nf + i < 2 * d, 0 < d;
                }
            }
            if self.waiting().contains(self.next_buffer) {
                let i = choose|i: int| 0 <= i < self.waiting().len() && self.waiting()[i] == self.next_buffer;
                assert(((nf + i) % d) as usize == self.next_buffer);
                assert((nf + i) % d != nb);
                assert(0 <= (nf + i) % d < d) by (nonlinear_arith)
                    requires 0 < d;
            }
        }
    }

    /// Hands out the next buffer to map, which then waits after the others,
    /// unless every buffer is already waiting.
    pub fn map_active_buffer(&mut self) -> (r: Option<usize>)
        requires
            old(self).spec_depth() > 0,
        ensures
            final(self).spec_depth() == old(self).spec_depth(),
            final(self).oldest() == old(self).oldest(),
            match r {
                Some(i) => {
                    &&& old(self).waiting().len() < old(self).spec_depth()
                    &&& i == (old(self).oldest() + old(self).waiting().len()) % old(self).spec_depth()
                    &&& !old(self).waiting().contains(i)
                    &&& final(self).waiting() == old(self).waiting().push(i)
                },
                None => {
                    &&& old(self).waiting().len() == old(self).spec_depth()
                    &&& *final(self) == *old(self)
                },
            },
    {
        proof {
            use_type_invariant(&*self);
        }
        if self.full() {
            return None;
        }
        let ghost before = *self;
        proof {
            before.lemma_next_buffer_not_waiting();
        }
        let i = self.next_buffer;
        let next = if self.next_buffer + 1 == self.depth { 0 } else { self.next_buffer + 1 };
        self.next_buffer = next;
        self.possibly_full = true;
        proof {
            let d = before.depth as int;
            let c = before.waiting_count() as int;
            let nf = before.next_flag as int;
            assert(self.waiting_count() == c + 1) by {
                if before.next_buffer == before.next_flag {
                    assert(c == 0);
                }
            }
            assert(((nf + c) % d) as usize == i);
            assert(self.waiting() =~= before.waiting().push(i));
        }
        Some(i)
    }

    /// Takes the oldest waiting buffer off the queue and returns it, to be
    /// read and unmapped.
    pub fn unmap_buffer(&mut self) -> (r: usize)
        requires
            old(self).spec_depth() > 0,
            old(self).waiting().len() > 0,
        ensures
            final(self).spec_depth() == old(self).spec_depth(),
            final(self).oldest() == (old(self).oldest() + 1) % old(self).spec_depth(),
            r == old(self).waiting()[0],
            final(self).waiting() == old(self).waiting().drop_first(),
    {
        proof {
            use_type_invariant(&*self);
        }
        let ghost before = *self;
        let i = self.next_flag;
        let next = if self.next_flag + 1 == self.depth { 0 } else { self.next_flag + 1 };
        self.next_flag = next;
        self.possibly_full = false;
        proof {
            let d = before.depth as int;
            let c = before.waiting_count() as int;
            let nf = before.next_flag as int;
            assert(nf % d == nf) by (nonlinear_arith)
                requires 0 <= nf < d;
            assert(self.waiting_count() == c - 1) by {
                if before.next_buffer == before.next_flag {
                    assert(before.possibly_full);
                }
            }
            assert forall|k: int| 0 <= k < c - 1 implies #[trigger] self.waiting()[k] == before.waiting()[k + 1] by {
                if nf + 1 < d {
                    assert(self.next_flag == nf + 1);
                } else {
                    assert(self.next_flag == 0);
                    assert((nf + k + 1) % d == k) by (nonlinear_arith)
                        requires nf + 1 == d, 0 <= k, k < d - 1;
                    assert(k % d == k) by (nonlinear_arith)
                        requires 0 <= k, k < d;
                }
            }
            if nf + 1 < d {
                assert((nf + 1) % d == nf + 1) by (nonlinear_arith)
                    requires 0 <= nf + 1 < d;
            } else {
                assert((nf + 1) % d == 0) by (nonlinear_arith)
                    requires nf + 1 == d, d > 0;
            }
            assert(self.waiting() =~= before.waiting().drop_first());
        }
        i
    }
}

} // verus!
