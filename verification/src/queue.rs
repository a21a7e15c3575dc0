//! Three-stage path queue.
//!
//! A single FIFO composed of a consumer-side memory ring (`left`), a lazily
//! created disk overflow store (`mid`), and a producer-side memory ring
//! (`right`).  The producer pushes into `right`; when `right` fills, its
//! contents migrate to `left` while the overflow store is empty (so they can
//! be popped without touching the disk), and to the overflow store otherwise
//! (anything newer than a spilled path must stay behind it).  The consumer
//! pops `left` first, then the overflow store, then `right`, which preserves
//! first-in first-out order across the three stages.

use vstd::prelude::*;

verus! {

use crate::Error;
use crate::lock::SpinLock;
use crate::ring::{MemPathQueue, pow2_capacity};
use crate::spill::TempfilePathQueue;
use crate::state::PathQueueState;
use crate::wrapping::{
    sub_mod64, wrap64, wrap_inc64, wrap_sub64, lemma_sub_mod64_succ, lemma_sub_mod64_pred,
};
use vstd::arithmetic::div_mod::lemma_small_mod;

/// What a pop returns on a queue holding `v`, as `pop`'s contract fixes it:
/// nothing when the queue is empty, otherwise the oldest path.
pub open spec fn pop_front_spec(v: Seq<Seq<u8>>) -> Option<Seq<u8>> {
    if v.len() == 0 {
        None
    } else {
        Some(v[0])
    }
}

/// The content of a queue after pushing `pushes`, in order, into an empty
/// one — each push appending its path, as `push`'s contract states.
pub open spec fn content_after_pushes(pushes: Seq<Seq<u8>>) -> Seq<Seq<u8>>
    decreases pushes.len(),
{
    if pushes.len() == 0 {
        Seq::empty()
    } else {
        content_after_pushes(pushes.drop_last()).push(pushes.last())
    }
}

/// FIFO per queue: pushing a sequence of paths into an empty queue leaves
/// exactly that sequence as the content, and the i-th pop — each pop hands
/// out the front and keeps the rest, per `pop`'s contract — returns the i-th
/// path pushed.  A single consumer therefore sees the paths in push order.
pub proof fn lemma_fifo(pushes: Seq<Seq<u8>>)
    ensures
        content_after_pushes(pushes) == pushes,
        forall|i: int|
            0 <= i < pushes.len() ==> pop_front_spec(#[trigger] pushes.skip(i)) == Some(pushes[i])
                && pushes.skip(i).drop_first() == pushes.skip(i + 1),
    decreases pushes.len(),
{
    if pushes.len() == 0 {
        assert(content_after_pushes(pushes) =~= pushes);
    } else {
        lemma_fifo(pushes.drop_last());
        assert(pushes.drop_last().push(pushes.last()) =~= pushes);
    }
    assert forall|i: int|
        0 <= i < pushes.len() implies pop_front_spec(#[trigger] pushes.skip(i)) == Some(pushes[i])
            && pushes.skip(i).drop_first() == pushes.skip(i + 1) by {
        assert(pushes.skip(i)[0] == pushes[i]);
        assert(pushes.skip(i).drop_first() =~= pushes.skip(i + 1));
    }
}

/// No path in the sequence holds a NUL byte.
pub open spec fn nul_free(s: Seq<Seq<u8>>) -> bool {
    forall|i: int| 0 <= i < s.len() ==> !(#[trigger] s[i]).contains(0u8)
}

/// Spill-capable FIFO of owned paths.
pub struct PathQueue {
    push_count: u64,
    pop_count: u64,
    pushing: SpinLock,
    popping: SpinLock,
    spilling: SpinLock,
    left: MemPathQueue,
    mid: Option<TempfilePathQueue>,
    right: MemPathQueue,
}

impl PathQueue {
    /// Paths resident in the consumer-side ring, oldest first.
    pub closed spec fn left_view(self) -> Seq<Seq<u8>> {
        self.left@
    }

    /// Paths resident in the overflow store, oldest first.
    pub closed spec fn mid_view(self) -> Seq<Seq<u8>> {
        match self.mid {
            Some(m) => m@,
            None => Seq::empty(),
        }
    }

    /// Paths resident in the producer-side ring, oldest first.
    pub closed spec fn right_view(self) -> Seq<Seq<u8>> {
        self.right@
    }

    /// All resident paths, oldest first.
    pub closed spec fn view(self) -> Seq<Seq<u8>> {
        self.left_view() + self.mid_view() + self.right_view()
    }

    /// Capacity of the consumer-side ring.
    pub closed spec fn left_cap(self) -> int {
        self.left.cap()
    }

    /// Capacity of the producer-side ring.
    pub closed spec fn right_cap(self) -> int {
        self.right.cap()
    }

    /// The number the queue's wrapping counters stand for.
    pub closed spec fn pushed_minus_popped(self) -> int {
        sub_mod64(self.push_count, self.pop_count)
    }

    /// A push on this state has to migrate paths out of the producer ring.
    pub open spec fn spill_needed(self) -> bool {
        self.right_view().len() == self.right_cap()
    }

    /// A pop on this state has to read the overflow store.
    pub open spec fn pop_hits_spill(self) -> bool {
        self.left_view().len() == 0 && self.mid_view().len() > 0
    }

    /// How many of the producer ring's paths fit into the consumer ring when
    /// a migration finds the overflow store empty: the store receives only
    /// the overflow, which keeps disk traffic to the minimum.
    pub open spec fn migrated_to_left(self) -> int {
        if self.left_cap() - self.left_view().len() < self.right_view().len() {
            self.left_cap() - self.left_view().len()
        } else {
            self.right_view().len() as int
        }
    }

    /// Well-formedness: both rings and the overflow store are well formed, no
    /// lock is held between operations, the wrapping counters agree with the
    /// number of resident paths, and no resident path holds a NUL byte.
    pub closed spec fn wf(self) -> bool {
        &&& self.left.wf() && self.right.wf()
        &&& (self.mid is Some ==> self.mid->0.wf())
        &&& !self.pushing.is_locked() && !self.popping.is_locked() && !self.spilling.is_locked()
        &&& sub_mod64(self.push_count, self.pop_count) == self@.len()
        &&& nul_free(self.left@) && nul_free(self.right@)
    }

    /// The three stage views compose, oldest first, to the queue's content.
    pub proof fn lemma_stage_views(self)
        ensures
            self@ == self.left_view() + self.mid_view() + self.right_view(),
    {
    }

    /// A well-formed queue holds fewer paths than the counters can wrap.
    pub proof fn lemma_view_bound(self)
        requires
            self.wf(),
        ensures
            self@.len() < wrap64() - 1,
            self.left_cap() >= 1 && self.right_cap() >= 1,
            self.left_view().len() <= self.left_cap(),
            self.right_view().len() <= self.right_cap(),
    {
        self.left.lemma_wf_bounds();
        self.right.lemma_wf_bounds();
        if self.mid is Some {
            self.mid->0.lemma_counts();
        }
    }

    /// Mass conservation: in every state the operations preserve (each
    /// requires and re-establishes `wf`), the paths pushed minus the paths
    /// popped — the difference of the wrapping counters — equals the number
    /// of resident paths.  `push` raises both sides by one and `pop` lowers
    /// them, as their contracts state.
    pub proof fn lemma_mass_conservation(self)
        requires
            self.wf(),
        ensures
            self.pushed_minus_popped() == self@.len(),
    {
    }

    /// Spill transparency: what `pop` returns is fixed by the queue's
    /// content alone.  Two well-formed queues with the same content — in one
    /// of them paths may have transited the spill store, in the other not —
    /// pop the same path and are left with the same content.
    pub proof fn lemma_spill_transparency(a: PathQueue, b: PathQueue)
        requires
            a.wf(),
            b.wf(),
            a@ == b@,
        ensures
            pop_front_spec(a@) == pop_front_spec(b@),
            a@.len() > 0 ==> a@.drop_first() == b@.drop_first(),
    {
    }

    /// Create a queue with the two ring capacities, each rounded up to a
    /// power of two — the least one that reaches the request, by the range
    /// clauses.
    pub fn new(read_buf_len: u32, write_buf_len: u32) -> (r: Result<PathQueue, Error>)
        requires
            1 <= read_buf_len <= 0x8000_0000,
            1 <= write_buf_len <= 0x8000_0000,
        ensures
            r is Ok,
            r->Ok_0.wf(),
            r->Ok_0@ == Seq::<Seq<u8>>::empty(),
            read_buf_len as int <= r->Ok_0.left_cap() < 2 * read_buf_len as int,
            write_buf_len as int <= r->Ok_0.right_cap() < 2 * write_buf_len as int,
            pow2_capacity(r->Ok_0.left_cap()),
            pow2_capacity(r->Ok_0.right_cap()),
    {
        let q = PathQueue {
            push_count: 0,
            pop_count: 0,
            pushing: SpinLock::new(),
            popping: SpinLock::new(),
            spilling: SpinLock::new(),
            left: MemPathQueue::new(read_buf_len),
            mid: None,
            right: MemPathQueue::new(write_buf_len),
        };
        proof {
            lemma_small_mod(0nat, wrap64() as nat);
            assert(q@ =~= Seq::<Seq<u8>>::empty());
        }
        Ok(q)
    }

    /// Append one path.  Always succeeds while the producer ring has room;
    /// when it is full the paths in it first migrate to the consumer ring or
    /// the overflow store, and only a failure of the overflow store makes the
    /// push fail.
    pub fn push(&mut self, path: Vec<u8>) -> (r: Result<Option<Vec<u8>>, Error>)
        requires
            old(self).wf(),
            !path@.contains(0u8),
        ensures
            r is Ok ==> {
                &&& r->Ok_0 is None
                &&& final(self).wf()
                &&& final(self)@ == old(self)@.push(path@)
                &&& final(self).left_cap() == old(self).left_cap()
                &&& final(self).right_cap() == old(self).right_cap()
                &&& final(self).pushed_minus_popped() == old(self).pushed_minus_popped() + 1
            },
            !old(self).spill_needed() ==> r is Ok,
            r is Err ==> r->Err_0 == Error::Io && old(self).spill_needed() && final(self).pushed_minus_popped() == old(self).pushed_minus_popped(),
            r is Ok && !old(self).spill_needed() ==> final(self).left_view() == old(self).left_view() && final(self).mid_view() == old(self).mid_view() && final(self).right_view() == old(self).right_view().push(path@),
            r is Ok && old(self).spill_needed() && old(self).mid_view().len() == 0 ==> final(self).right_view() == seq![path@] && final(self).left_view() == old(self).left_view()
                + old(self).right_view().take(old(self).migrated_to_left()) && final(self).mid_view() == old(self).right_view().skip(old(self).migrated_to_left()),
            r is Ok && old(self).spill_needed() && old(self).mid_view().len() > 0 ==> final(self).right_view() == seq![path@] && final(self).left_view() == old(self).left_view()
                && final(self).mid_view() == old(self).mid_view() + old(self).right_view(),
    {
        if self.pushing.try_lock().is_err() {
            return Ok(Some(path));
        }
        proof {
            old(self).lemma_view_bound();
        }
        match self.right.push(path) {
            None => {
                proof {
                    let l = old(self).left_view();
                    let m = old(self).mid_view();
                    let rr = old(self).right_view();
                    assert(self.right@ == rr.push(path@));
                    assert(l + m + rr.push(path@) =~= (l + m + rr).push(path@));
                    assert forall|i: int|
                        0 <= i < self.right@.len() implies !(#[trigger] self.right@[i]).contains(
                        0u8,
                    ) by {
                        if i < rr.len() {
                            assert(self.right@[i] == rr[i]);
                        } else {
                            assert(self.right@[i] == path@);
                        }
                    }
                }
            },
            Some(path2) => {
                if self.spilling.try_lock().is_err() {
                    self.pushing.unlock();
                    return Ok(Some(path2));
                }
                // Take the overflow store out of the queue for the migration,
                // creating it on first need.
                let mut tmp: Option<TempfilePathQueue> = None;
                core::mem::swap(&mut self.mid, &mut tmp);
                let mut midq = match tmp {
                    Some(m) => m,
                    None => TempfilePathQueue::new(),
                };
                let ghost big_l = old(self).left_view();
                let ghost big_m = old(self).mid_view();
                let ghost big_r = old(self).right_view();
                let ghost room = old(self).left_cap() - big_l.len();
                proof {
                    assert(midq@ == big_m);
                    assert(self.left@ + midq@ + self.right@ =~= old(self)@);
                }
                if midq.state().is_empty() {
                    // While the overflow store is empty the migrated paths may
                    // go to the consumer ring: nothing older sits on disk, and
                    // whatever lands in `left` is popped without disk traffic.
                    proof {
                        assert(self.left@ =~= big_l + big_r.subrange(0, 0));
                        assert(midq@ =~= big_r.subrange(0, 0));
                        assert(self.right@ =~= big_r.skip(0));
                    }
                    loop
                        invariant
                            self.left.wf(),
                            self.right.wf(),
                            midq.wf(),
                            self.left.cap() == old(self).left.cap(),
                            self.right.cap() == old(self).right.cap(),
                            self.push_count == old(self).push_count,
                            self.pop_count == old(self).pop_count,
                            self.mid is None,
                            !self.popping.is_locked(),
                            nul_free(self.left@),
                            nul_free(self.right@),
                            old(self).spill_needed(),
                            midq@.len() > 0 ==> self.left@.len() == self.left.cap(),
                            self.left@ + midq@ + self.right@ == old(self)@,
                            big_l == old(self).left_view(),
                            big_r == old(self).right_view(),
                            room == old(self).left_cap() - big_l.len(),
                            big_l.len() <= self.left@.len(),
                            self.right@.len() <= big_r.len(),
                            self.left@ == big_l + big_r.subrange(
                                0,
                                self.left@.len() - big_l.len(),
                            ),
                            midq@ == big_r.subrange(
                                self.left@.len() - big_l.len(),
                                big_r.len() - self.right@.len(),
                            ),
                            self.right@ == big_r.skip(big_r.len() - self.right@.len()),
                            self.left@.len() - big_l.len() == (
                            if big_r.len() - self.right@.len() <= room {
                                big_r.len() - self.right@.len()
                            } else {
                                room
                            }),
                        ensures
                            self.right@.len() == 0,
                            self.left.wf(),
                            self.right.wf(),
                            midq.wf(),
                            self.left.cap() == old(self).left.cap(),
                            self.right.cap() == old(self).right.cap(),
                            self.push_count == old(self).push_count,
                            self.pop_count == old(self).pop_count,
                            self.mid is None,
                            !self.popping.is_locked(),
                            nul_free(self.left@),
                            self.left@ + midq@ + self.right@ == old(self)@,
                            self.left@ == big_l + big_r.take(old(self).migrated_to_left()),
                            midq@ == big_r.skip(old(self).migrated_to_left()),
                        decreases self.right@.len(),
                    {
                        let ghost l0 = self.left@;
                        let ghost m0 = midq@;
                        let ghost r0 = self.right@;
                        let ghost lm0 = l0.len() - big_l.len();
                        let ghost dn0 = big_r.len() - r0.len();
                        proof {
                            self.left.lemma_wf_bounds();
                            self.right.lemma_wf_bounds();
                        }
                        match self.right.pop() {
                            None => {
                                proof {
                                    assert(r0.len() == 0);
                                    assert(lm0 == old(self).migrated_to_left());
                                    assert(self.left@ == big_l + big_r.take(lm0));
                                    assert(midq@ =~= big_r.skip(lm0));
                                }
                                break;
                            },
                            Some(p) => {
                                proof {
                                    assert(!r0[0].contains(0u8));
                                    assert(!p@.contains(0u8));
                                    assert(p@ == big_r[dn0]);
                                }
                                match self.left.push(p) {
                                    None => {
                                        proof {
                                            // `left` had room, so the store was empty.
                                            assert(m0.len() == 0);
                                            assert(lm0 == dn0);
                                            assert(self.left@ == l0.push(p@));
                                            assert(self.right@ == r0.drop_first());
                                            assert(self.left@ + midq@ + self.right@ =~= l0 + m0
                                                + r0);
                                            assert(self.left@ =~= big_l + big_r.subrange(
                                                0,
                                                lm0 + 1,
                                            ));
                                            assert(midq@ =~= big_r.subrange(lm0 + 1, dn0 + 1));
                                            assert(self.right@ =~= big_r.skip(dn0 + 1));
                                            assert(lm0 < room);
                                            assert forall|i: int|
                                                0 <= i < self.left@.len() implies !(
                                            #[trigger] self.left@[i]).contains(0u8) by {
                                                if i < l0.len() {
                                                    assert(self.left@[i] == l0[i]);
                                                } else {
                                                    assert(self.left@[i] == p@);
                                                }
                                            }
                                            assert forall|i: int|
                                                0 <= i < self.right@.len() implies !(
                                            #[trigger] self.right@[i]).contains(0u8) by {
                                                assert(self.right@[i] == r0[i + 1]);
                                            }
                                        }
                                    },
                                    Some(p2) => {
                                        proof {
                                            assert(l0.len() == self.left.cap());
                                            assert(lm0 == room);
                                            assert(p2@ == p@);
                                        }
                                        match midq.push(&p2) {
                                            Ok(()) => {
                                                proof {
                                                    assert(midq@ == m0.push(p@));
                                                    assert(self.right@ == r0.drop_first());
                                                    assert(self.left@ + midq@ + self.right@ =~= l0
                                                        + m0 + r0);
                                                    assert(midq@ =~= big_r.subrange(
                                                        lm0,
                                                        dn0 + 1,
                                                    ));
                                                    assert(self.right@ =~= big_r.skip(dn0 + 1));
                                                    assert forall|i: int|
                                                        0 <= i < self.right@.len() implies !(
                                                    #[trigger] self.right@[i]).contains(0u8) by {
                                                        assert(self.right@[i] == r0[i + 1]);
                                                    }
                                                }
                                            },
                                            Err(_) => {
                                                self.mid = Some(midq);
                                                self.spilling.unlock();
                                                self.pushing.unlock();
                                                return Err(Error::Io);
                                            },
                                        }
                                    },
                                }
                            },
                        }
                    }
                } else {
                    // Paths already sit on disk; anything newer must follow
                    // them, so the whole producer ring goes to the store.
                    proof {
                        assert(midq@ =~= big_m + big_r.subrange(0, 0));
                        assert(self.right@ =~= big_r.skip(0));
                    }
                    loop
                        invariant
                            self.left.wf(),
                            self.right.wf(),
                            midq.wf(),
                            self.left.cap() == old(self).left.cap(),
                            self.right.cap() == old(self).right.cap(),
                            self.push_count == old(self).push_count,
                            self.pop_count == old(self).pop_count,
                            self.mid is None,
                            !self.popping.is_locked(),
                            nul_free(self.left@),
                            nul_free(self.right@),
                            old(self).spill_needed(),
                            self.left@ + midq@ + self.right@ == old(self)@,
                            big_m == old(self).mid_view(),
                            big_r == old(self).right_view(),
                            self.left == old(self).left,
                            self.right@.len() <= big_r.len(),
                            midq@ == big_m + big_r.subrange(0, big_r.len() - self.right@.len()),
                            self.right@ == big_r.skip(big_r.len() - self.right@.len()),
                        ensures
                            self.right@.len() == 0,
                            self.left.wf(),
                            self.right.wf(),
                            midq.wf(),
                            self.left.cap() == old(self).left.cap(),
                            self.right.cap() == old(self).right.cap(),
                            self.push_count == old(self).push_count,
                            self.pop_count == old(self).pop_count,
                            self.mid is None,
                            !self.popping.is_locked(),
                            nul_free(self.left@),
                            self.left@ + midq@ + self.right@ == old(self)@,
                            self.left == old(self).left,
                            midq@ == big_m + big_r,
                        decreases self.right@.len(),
                    {
                        let ghost l0 = self.left@;
                        let ghost m0 = midq@;
                        let ghost r0 = self.right@;
                        let ghost dn0 = big_r.len() - r0.len();
                        proof {
                            self.left.lemma_wf_bounds();
                            self.right.lemma_wf_bounds();
                        }
                        match self.right.pop() {
                            None => {
                                proof {
                                    assert(midq@ =~= big_m + big_r);
                                }
                                break;
                            },
                            Some(p) => {
                                proof {
                                    assert(!r0[0].contains(0u8));
                                    assert(!p@.contains(0u8));
                                    assert(p@ == big_r[dn0]);
                                }
                                match midq.push(&p) {
                                    Ok(()) => {
                                        proof {
                                            assert(midq@ == m0.push(p@));
                                            assert(self.right@ == r0.drop_first());
                                            assert(self.left@ + midq@ + self.right@ =~= l0 + m0
                                                + r0);
                                            assert(midq@ =~= big_m + big_r.subrange(0, dn0 + 1));
                                            assert(self.right@ =~= big_r.skip(dn0 + 1));
                                            assert forall|i: int|
                                                0 <= i < self.right@.len() implies !(
                                            #[trigger] self.right@[i]).contains(0u8) by {
                                                assert(self.right@[i] == r0[i + 1]);
                                            }
                                        }
                                    },
                                    Err(_) => {
                                        self.mid = Some(midq);
                                        self.spilling.unlock();
                                        self.pushing.unlock();
                                        return Err(Error::Io);
                                    },
                                }
                            },
                        }
                    }
                }
                proof {
                    self.right.lemma_wf_bounds();
                }
                let ghost l1 = self.left@;
                let ghost m1 = midq@;
                let back = self.right.push(path2);
                proof {
                    assert(back is None);
                    assert(l1 + m1 + Seq::<Seq<u8>>::empty() =~= l1 + m1);
                    assert(self.right@ =~= Seq::<Seq<u8>>::empty().push(path@));
                    assert(self.left@ + midq@ + self.right@ =~= (l1 + m1).push(path@));
                    assert((l1 + m1).push(path@) =~= old(self)@.push(path@));
                    assert forall|i: int|
                        0 <= i < self.right@.len() implies !(#[trigger] self.right@[i]).contains(
                        0u8,
                    ) by {
                        assert(self.right@[i] == path@);
                    }
                }
                self.mid = Some(midq);
                self.spilling.unlock();
            },
        }
        self.push_count = wrap_inc64(self.push_count);
        self.pushing.unlock();
        proof {
            lemma_sub_mod64_succ(old(self).push_count, old(self).pop_count);
        }
        Ok(None)
    }

    /// Remove and return the oldest resident path, or `None` if the queue is
    /// empty.  Only a read failure of the overflow store makes the pop fail.
    pub fn pop(&mut self) -> (r: Result<Option<Vec<u8>>, Error>)
        requires
            old(self).wf(),
        ensures
            old(self)@.len() == 0 ==> r == Result::<Option<Vec<u8>>, Error>::Ok(None)
                && final(self).wf() && final(self)@ == old(self)@ && final(self).left_cap() == old(self).left_cap() && final(self).right_cap() == old(self).right_cap()
                && final(self).pushed_minus_popped() == old(self).pushed_minus_popped()
                && final(self).left_view() == old(self).left_view() && final(self).mid_view()
                == old(self).mid_view() && final(self).right_view() == old(self).right_view(),
            r is Ok && old(self)@.len() > 0 ==> {
                &&& r->Ok_0 is Some
                &&& r->Ok_0->0@ == old(self)@[0]
                &&& final(self).wf()
                &&& final(self)@ == old(self)@.drop_first()
                &&& final(self).left_cap() == old(self).left_cap()
                &&& final(self).right_cap() == old(self).right_cap()
                &&& final(self).pushed_minus_popped() == old(self).pushed_minus_popped() - 1
            },
            !old(self).pop_hits_spill() ==> r is Ok,
            r is Err ==> r->Err_0 == Error::Io && old(self).pop_hits_spill() && final(self).pushed_minus_popped() == old(self).pushed_minus_popped(),
            r is Ok && old(self).left_view().len() > 0 ==> final(self).left_view() == old(self).left_view().drop_first() && final(self).mid_view() == old(self).mid_view() && final(self).right_view() == old(self).right_view(),
            r is Ok && old(self).left_view().len() == 0 && old(self).mid_view().len() > 0
                ==> final(self).left_view() == old(self).left_view() && final(self).mid_view()
                == old(self).mid_view().drop_first() && final(self).right_view() == old(self).right_view(),
            r is Ok && old(self)@.len() > 0 && old(self).left_view().len() == 0 && old(self).mid_view().len() == 0 ==> final(self).left_view() == old(self).left_view() && final(self).mid_view() == old(self).mid_view() && final(self).right_view() == old(self).right_view().drop_first(),
    {
        if self.popping.try_lock().is_err() {
            return Ok(None);
        }
        let diff = wrap_sub64(self.push_count, self.pop_count);
        if diff == 0 {
            self.popping.unlock();
            return Ok(None);
        }
        if self.spilling.try_lock().is_err() {
            self.popping.unlock();
            return Ok(None);
        }
        proof {
            old(self).lemma_view_bound();
        }
        let ghost l0 = self.left@;
        let ghost m0 = old(self).mid_view();
        let ghost r0 = self.right@;
        let got: Vec<u8>;
        match self.left.pop() {
            Some(p) => {
                proof {
                    assert(p@ == (l0 + m0 + r0)[0]);
                    assert(self.left@ + m0 + r0 =~= (l0 + m0 + r0).drop_first());
                }
                got = p;
            },
            None => {
                // The consumer ring is empty: try the overflow store, then
                // the producer ring.
                let mut tmp: Option<TempfilePathQueue> = None;
                core::mem::swap(&mut self.mid, &mut tmp);
                match tmp {
                    Some(mut m) => {
                        match m.pop() {
                            Err(_) => {
                                self.mid = Some(m);
                                self.spilling.unlock();
                                self.popping.unlock();
                                return Err(Error::Io);
                            },
                            Ok(Some(p)) => {
                                proof {
                                    assert(p@ == (l0 + m0 + r0)[0]);
                                    assert(l0 + m@ + r0 =~= (l0 + m0 + r0).drop_first());
                                }
                                self.mid = Some(m);
                                got = p;
                            },
                            Ok(None) => {
                                self.mid = Some(m);
                                match self.right.pop() {
                                    Some(p) => {
                                        proof {
                                            assert(p@ == (l0 + m0 + r0)[0]);
                                            assert(l0 + m0 + self.right@ =~= (l0 + m0
                                                + r0).drop_first());
                                        }
                                        got = p;
                                    },
                                    None => {
                                        self.spilling.unlock();
                                        self.popping.unlock();
                                        return Ok(None);
                                    },
                                }
                            },
                        }
                    },
                    None => {
                        match self.right.pop() {
                            Some(p) => {
                                proof {
                                    assert(p@ == (l0 + m0 + r0)[0]);
                                    assert(l0 + m0 + self.right@ =~= (l0 + m0 + r0).drop_first());
                                }
                                self.mid = None;
                                got = p;
                            },
                            None => {
                                self.mid = None;
                                self.spilling.unlock();
                                self.popping.unlock();
                                return Ok(None);
                            },
                        }
                    },
                }
            },
        }
        self.pop_count = wrap_inc64(self.pop_count);
        self.spilling.unlock();
        self.popping.unlock();
        proof {
            lemma_sub_mod64_pred(old(self).push_count, old(self).pop_count);
        }
        Ok(Some(got))
    }

    /// Whether the queue holds no paths, read from the wrapping counters.
    pub fn is_empty(&self) -> (r: bool)
        requires
            self.wf(),
        ensures
            r == (self@.len() == 0),
    {
        wrap_sub64(self.push_count, self.pop_count) == 0
    }

    /// Fill state of the three stages: consumer ring, overflow store,
    /// producer ring.
    pub fn state(&self) -> (s: (PathQueueState, PathQueueState, PathQueueState))
        requires
            self.wf(),
        ensures
            s.0 == (if self.left_view().len() == 0 {
                PathQueueState::Empty
            } else if self.left_view().len() == self.left_cap() {
                PathQueueState::Full
            } else {
                PathQueueState::PartiallyFilled
            }),
            s.1 == (if self.mid_view().len() == 0 {
                PathQueueState::Empty
            } else {
                PathQueueState::PartiallyFilled
            }),
            s.2 == (if self.right_view().len() == 0 {
                PathQueueState::Empty
            } else if self.right_view().len() == self.right_cap() {
                PathQueueState::Full
            } else {
                PathQueueState::PartiallyFilled
            }),
    {
        let ls = self.left.state();
        let ms = match &self.mid {
            Some(m) => m.state(),
            None => PathQueueState::Empty,
        };
        let rs = self.right.state();
        (ls, ms, rs)
    }
}

} // verus!
