//! Bounded in-memory ring of owned paths.
//!
//! A fixed-capacity FIFO with a power-of-two capacity and two wrapping
//! 32-bit counters.  Slot `i & (capacity - 1)` holds the path pushed as the
//! `i`-th element; the counters wrap modulo 2^32, which is harmless because
//! the capacity divides 2^32 and the fill level never exceeds the capacity.

use vstd::prelude::*;

verus! {

use crate::state::PathQueueState;
use crate::wrapping::{
    sub_mod32, wrap32, wrap_inc32, wrap_sub32, lemma_sub_mod32_succ, lemma_sub_mod32_pred,
    lemma_wrap32_mod_pow2, lemma_slot_distinct, lemma_slot_congruent,
};
use vstd::arithmetic::div_mod::{lemma_small_mod, lemma_mod_bound, lemma_add_mod_noop_right};
use vstd::arithmetic::power2::{pow2, lemma2_to64, lemma_pow2_adds, lemma_pow2_pos};
use vstd::bits::{low_bits_mask, lemma_u32_low_bits_mask_is_mod};

/// One step of a FIFO trace: a push of a path, or a pop.
pub enum RingOp {
    Push(Seq<u8>),
    Pop,
}

/// The contents of a logically unbounded FIFO after a trace of operations.
pub open spec fn unbounded_after(ops: Seq<RingOp>) -> Seq<Seq<u8>>
    decreases ops.len(),
{
    if ops.len() == 0 {
        Seq::empty()
    } else {
        let prev = unbounded_after(ops.drop_last());
        match ops.last() {
            RingOp::Push(p) => prev.push(p),
            RingOp::Pop => if prev.len() == 0 {
                prev
            } else {
                prev.drop_first()
            },
        }
    }
}

/// The contents of a capacity-bounded FIFO after a trace of operations, a
/// push into a full buffer being refused — exactly the behaviour the ring's
/// `push` and `pop` contracts describe.
pub open spec fn bounded_after(ops: Seq<RingOp>, cap: int) -> Seq<Seq<u8>>
    decreases ops.len(),
{
    if ops.len() == 0 {
        Seq::empty()
    } else {
        let prev = bounded_after(ops.drop_last(), cap);
        match ops.last() {
            RingOp::Push(p) => if prev.len() < cap {
                prev.push(p)
            } else {
                prev
            },
            RingOp::Pop => if prev.len() == 0 {
                prev
            } else {
                prev.drop_first()
            },
        }
    }
}

/// Whether a trace never pushes into a full capacity-`cap` FIFO.
pub open spec fn never_overfills(ops: Seq<RingOp>, cap: int) -> bool
    decreases ops.len(),
{
    if ops.len() == 0 {
        true
    } else {
        never_overfills(ops.drop_last(), cap) && (ops.last() is Push ==> bounded_after(
            ops.drop_last(),
            cap,
        ).len() < cap)
    }
}

/// Ring wrap correctness: however many paths run through the ring — the
/// 32-bit counters wrap freely, and the same slots are reused any number of
/// times — an interleaving of pushes and pops that never meets a full ring
/// leaves exactly the contents the logically unbounded FIFO of the same
/// operations would hold, after every prefix of the trace; so the pops of
/// both return the same paths in the same order.
pub proof fn lemma_ring_wrap(ops: Seq<RingOp>, cap: int)
    requires
        never_overfills(ops, cap),
    ensures
        bounded_after(ops, cap) == unbounded_after(ops),
    decreases ops.len(),
{
    if ops.len() > 0 {
        lemma_ring_wrap(ops.drop_last(), cap);
    }
}

/// Whether `c` is a capacity the ring can have: a power of two that fits a
/// 32-bit counter's range.
pub open spec fn pow2_capacity(c: int) -> bool {
    exists|k: nat| k <= 31 && c == pow2(k) as int
}

/// Bounded SPSC ring of owned path byte strings.
pub struct MemPathQueue {
    capacity: u32,
    pop_count: u32,
    push_count: u32,
    buf: Vec<Option<Vec<u8>>>,
    cap_exp: Ghost<nat>,
}

impl MemPathQueue {
    /// The ring's capacity.
    pub closed spec fn cap(self) -> int {
        self.capacity as int
    }

    /// Number of resident paths, as represented by the wrapping counters.
    pub closed spec fn len_spec(self) -> int {
        sub_mod32(self.push_count, self.pop_count)
    }

    /// Buffer index that holds the `j`-th oldest resident path.
    closed spec fn slot(self, j: int) -> int {
        (self.pop_count as int + j) % self.cap()
    }

    /// Well-formedness: power-of-two capacity, buffer of exactly that many
    /// slots, fill level within capacity, and every resident slot occupied.
    pub closed spec fn wf(self) -> bool {
        &&& self.cap_exp@ <= 31
        &&& self.capacity == pow2(self.cap_exp@)
        &&& self.buf@.len() == self.capacity
        &&& 0 <= self.len_spec() <= self.cap()
        &&& forall|j: int| 0 <= j < self.len_spec() ==> #[trigger] self.buf@[self.slot(j)] is Some
    }

    /// The resident paths, oldest first.
    pub closed spec fn view(self) -> Seq<Seq<u8>> {
        Seq::new(self.len_spec() as nat, |j: int| self.buf@[self.slot(j)]->0@)
    }

    /// A well-formed ring has a positive capacity and holds at most `cap` paths.
    pub proof fn lemma_wf_bounds(self)
        requires
            self.wf(),
        ensures
            1 <= self.cap() <= 0x8000_0000,
            self@.len() == self.len_spec() <= self.cap(),
    {
        lemma_pow2_pos(self.cap_exp@);
        lemma2_to64();
        if self.cap_exp@ < 31 {
            vstd::arithmetic::power2::lemma_pow2_strictly_increases(self.cap_exp@, 31);
        }
    }

    /// Create a ring; the requested capacity is rounded up to the next power
    /// of two.  The range clause makes that power the least one: no smaller
    /// power of two reaches the request.
    pub fn new(capacity: u32) -> (q: MemPathQueue)
        requires
            1 <= capacity <= 0x8000_0000,
        ensures
            q.wf(),
            q@ == Seq::<Seq<u8>>::empty(),
            capacity as int <= q.cap() < 2 * capacity as int,
            pow2_capacity(q.cap()),
    {
        let mut c: u32 = 1;
        let ghost mut k: nat = 0nat;
        proof {
            lemma2_to64();
        }
        while c < capacity
            invariant
                1 <= capacity <= 0x8000_0000,
                1 <= c,
                c == pow2(k),
                k <= 31,
                c < 2 * capacity,
            decreases 2 * capacity as int - c as int,
        {
            proof {
                lemma2_to64();
                if k == 31 {
                    assert(c >= capacity);
                    assert(false);
                }
                lemma_pow2_adds(k, 1);
                k = k + 1nat;
            }
            c = c * 2;
        }
        let mut buf: Vec<Option<Vec<u8>>> = Vec::new();
        let mut i: u32 = 0;
        while i < c
            invariant
                buf@.len() == i,
                i <= c,
            decreases c as int - i as int,
        {
            buf.push(None);
            i = i + 1;
        }
        let q = MemPathQueue { capacity: c, pop_count: 0, push_count: 0, buf, cap_exp: Ghost(k) };
        proof {
            lemma_small_mod(0nat, wrap32() as nat);
            assert(q@ =~= Seq::<Seq<u8>>::empty());
            assert(pow2_capacity(q.cap())) by {
                assert(k <= 31 && q.cap() == pow2(k) as int);
            }
        }
        q
    }

    /// Buffer index of the next free slot (the one `push` writes).
    proof fn lemma_push_slot(self)
        requires
            self.wf(),
        ensures
            self.push_count % self.capacity == self.slot(self.len_spec()),
            0 <= self.slot(self.len_spec()) < self.cap(),
    {
        lemma_pow2_pos(self.cap_exp@);
        let w = wrap32();
        let p = self.pop_count as int;
        let u = self.push_count as int;
        let l = self.len_spec();
        lemma_small_mod(self.push_count as nat, w as nat);
        lemma_add_mod_noop_right(p, u - p, w);
        assert((p + l) % w == u % w);
        lemma_wrap32_mod_pow2(p + l, self.cap_exp@);
        assert((p + l) % self.cap() == ((p + l) % w) % self.cap());
        lemma_wrap32_mod_pow2(u, self.cap_exp@);
        lemma_mod_bound(p + l, self.cap());
    }

    /// The slot a counter's mask computation selects, as a modulus.
    proof fn lemma_mask_is_mod(self, count: u32)
        requires
            self.wf(),
        ensures
            (count & (self.capacity - 1) as u32) == count as int % self.cap(),
            0 <= count as int % self.cap() < self.cap(),
    {
        lemma_pow2_pos(self.cap_exp@);
        lemma_u32_low_bits_mask_is_mod(count, self.cap_exp@);
        assert((self.capacity - 1) as u32 == low_bits_mask(self.cap_exp@) as u32);
        lemma_mod_bound(count as int, self.cap());
    }

    /// Push one path.  Returns the path back if the ring is full; otherwise
    /// stores it as the newest element.
    pub fn push(&mut self, path: Vec<u8>) -> (r: Option<Vec<u8>>)
        requires
            old(self).wf(),
        ensures
            final(self).wf(),
            final(self).cap() == old(self).cap(),
            old(self)@.len() == old(self).cap() ==> r == Some(path) && *final(self) == *old(self),
            old(self)@.len() < old(self).cap() ==> r is None && final(self)@ == old(self)@.push(
                path@,
            ),
    {
        proof {
            self.lemma_wf_bounds();
        }
        let len = wrap_sub32(self.push_count, self.pop_count);
        if len == self.capacity {
            return Some(path);
        }
        let idx_u32 = self.push_count & (self.capacity - 1);
        proof {
            self.lemma_mask_is_mod(self.push_count);
            self.lemma_push_slot();
        }
        let idx = idx_u32 as usize;
        let ghost pre = *self;
        self.buf.set(idx, Some(path));
        self.push_count = wrap_inc32(self.push_count);
        proof {
            lemma_sub_mod32_succ(pre.push_count, pre.pop_count);
            assert(self.len_spec() == pre.len_spec() + 1);
            assert forall|j: int| 0 <= j < self.len_spec() implies #[trigger] self.buf@[self.slot(
                j,
            )] is Some by {
                assert(self.slot(j) == pre.slot(j));
                if j < pre.len_spec() {
                    lemma_slot_distinct(pre.pop_count as int, j, pre.len_spec(), pre.cap());
                }
            }
            assert(self@ =~= pre@.push(path@)) by {
                assert forall|j: int| 0 <= j < self.len_spec() implies self@[j] == pre@.push(
                    path@,
                )[j] by {
                    assert(self.slot(j) == pre.slot(j));
                    if j < pre.len_spec() {
                        lemma_slot_distinct(pre.pop_count as int, j, pre.len_spec(), pre.cap());
                        assert(self.buf@[self.slot(j)] == pre.buf@[pre.slot(j)]);
                    }
                }
            }
        }
        None
    }

    /// Pop the oldest path, if any.
    pub fn pop(&mut self) -> (r: Option<Vec<u8>>)
        requires
            old(self).wf(),
        ensures
            final(self).wf(),
            final(self).cap() == old(self).cap(),
            old(self)@.len() == 0 ==> r is None && *final(self) == *old(self),
            old(self)@.len() > 0 ==> r is Some && r->0@ == old(self)@[0] && final(self)@ == old(
                self,
            )@.drop_first(),
    {
        proof {
            self.lemma_wf_bounds();
        }
        let len = wrap_sub32(self.push_count, self.pop_count);
        if len == 0 {
            return None;
        }
        let idx_u32 = self.pop_count & (self.capacity - 1);
        proof {
            self.lemma_mask_is_mod(self.pop_count);
            lemma_small_mod(0nat, self.cap() as nat);
            assert(idx_u32 as int == self.slot(0)) by {
                lemma_slot_congruent(self.pop_count as int, self.pop_count as int, 0, self.cap());
            }
        }
        let idx = idx_u32 as usize;
        let mut taken: Option<Vec<u8>> = None;
        let ghost pre = *self;
        self.buf.set_and_swap(idx, &mut taken);
        self.pop_count = wrap_inc32(self.pop_count);
        proof {
            lemma_sub_mod32_pred(pre.push_count, pre.pop_count);
            assert(self.len_spec() == pre.len_spec() - 1);
            assert(taken == pre.buf@[pre.slot(0)]);
            assert(taken is Some && taken->0@ == pre@[0]);
            assert forall|j: int| 0 <= j < self.len_spec() implies #[trigger] self.buf@[self.slot(
                j,
            )] is Some && self.buf@[self.slot(j)] == pre.buf@[pre.slot(j + 1)] by {
                lemma_wrap32_mod_pow2(pre.pop_count as int + 1, pre.cap_exp@);
                lemma_slot_congruent(
                    self.pop_count as int,
                    pre.pop_count as int + 1,
                    j,
                    pre.cap(),
                );
                assert(self.slot(j) == pre.slot(j + 1));
                lemma_slot_distinct(pre.pop_count as int, 0, j + 1, pre.cap());
            }
            assert(self@ =~= pre@.drop_first());
        }
        taken
    }

    /// Fill state of the ring.
    pub fn state(&self) -> (s: PathQueueState)
        requires
            self.wf(),
        ensures
            s == (if self@.len() == 0 {
                PathQueueState::Empty
            } else if self@.len() == self.cap() {
                PathQueueState::Full
            } else {
                PathQueueState::PartiallyFilled
            }),
    {
        let len = wrap_sub32(self.push_count, self.pop_count);
        if len == 0 {
            PathQueueState::Empty
        } else if len == self.capacity {
            PathQueueState::Full
        } else {
            PathQueueState::PartiallyFilled
        }
    }
}

} // verus!
