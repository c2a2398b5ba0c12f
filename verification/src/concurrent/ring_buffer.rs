//! A bounded first-in first-out queue over a power-of-two number of slots,
//! indexed by masking, with one slot always left empty so that a full
//! buffer and an empty one can be told apart.
use vstd::arithmetic::div_mod::{lemma_mod_multiples_vanish, lemma_small_mod};
use vstd::arithmetic::power2::{lemma2_to64, lemma_pow2_adds, lemma_pow2_pos, pow2};
use vstd::bits::{lemma_usize_low_bits_mask_is_mod, low_bits_mask};
use vstd::prelude::*;

verus! {

/// The smallest power of two that is at least `n` (1 for 0), as
/// `usize::next_power_of_two` gives it; past `2^(BITS-1)` it would not fit.
fn next_power_of_two(n: usize) -> (power: usize)
    requires
        n <= usize::MAX / 2 + 1,
    ensures
        is_least_power_at_least(power as nat, n as nat),
{
    let ghost top = (usize::BITS - 1) as nat;
    proof {
        lemma2_to64();
        vstd::arithmetic::power2::lemma_pow2_unfold(64);
        assert(usize::MAX / 2 + 1 == pow2(top));
    }
    let mut power: usize = 1;
    let ghost mut k: nat = 0;
    while power < n
        invariant
            k <= top,
            power == pow2(k),
            k == 0 || pow2((k - 1) as nat) < n,
            n <= pow2(top),
            top == usize::BITS - 1,
        decreases top - k,
    {
        proof {
            if k == top {
                assert(false);
            }
            vstd::arithmetic::power2::lemma_pow2_unfold(k + 1);
            vstd::arithmetic::power2::lemma_pow2_strictly_increases(k + 1, top + 1);
            lemma2_to64();
        }
        power = power * 2;
        proof {
            k = k + 1;
        }
    }
    proof {
        assert(k < usize::BITS);
    }
    power
}

/// `p` is the smallest power of two (below `2^BITS`) that is at least `n`.
pub open spec fn is_least_power_at_least(p: nat, n: nat) -> bool {
    exists|k: nat| k < usize::BITS && p == #[trigger] pow2(k) && p >= n && (k == 0 || pow2((k - 1) as nat) < n)
}

/// `c` is the number of slots a buffer asked for `requested` gets: the
/// smallest power of two that is at least `requested` and at least 2.
pub open spec fn is_ring_capacity(requested: nat, c: nat) -> bool {
    exists|k: nat| 1 <= k && c == #[trigger] pow2(k) && c >= requested && (k == 1 || pow2((k - 1) as nat) < requested)
}

/// One call on a ring buffer: a push of an item, or a pop.
pub enum RingOp<T> {
    Push(T),
    Pop,
}

/// What one call does to the items held by a buffer of `slots` slots, and
/// whether it succeeded: a push appends when fewer than `slots - 1` items are
/// held (else it is refused), a pop takes the oldest item when there is one.
pub open spec fn ring_step<T>(items: Seq<T>, slots: nat, op: RingOp<T>) -> (Seq<T>, bool) {
    match op {
        RingOp::Push(item) => if items.len() + 1 < slots {
            (items.push(item), true)
        } else {
            (items, false)
        },
        RingOp::Pop => if items.len() > 0 {
            (items.drop_first(), true)
        } else {
            (items, false)
        },
    }
}

/// The items held after the calls `ops`, in order, on an empty buffer of
/// `slots` slots.
pub open spec fn ring_run<T>(slots: nat, ops: Seq<RingOp<T>>) -> Seq<T>
    decreases ops.len(),
{
    if ops.len() == 0 {
        Seq::empty()
    } else {
        ring_step(ring_run(slots, ops.drop_last()), slots, ops.last()).0
    }
}

/// How many of the calls `ops` were pushes that were accepted.
pub open spec fn pushes_accepted<T>(slots: nat, ops: Seq<RingOp<T>>) -> nat
    decreases ops.len(),
{
    if ops.len() == 0 {
        0
    } else {
        let init = ops.drop_last();
        pushes_accepted(slots, init) + if ops.last() is Push && ring_step(
            ring_run(slots, init),
            slots,
            ops.last(),
        ).1 {
            1nat
        } else {
            0nat
        }
    }
}

/// How many of the calls `ops` were pops that returned an item.
pub open spec fn pops_served<T>(slots: nat, ops: Seq<RingOp<T>>) -> nat
    decreases ops.len(),
{
    if ops.len() == 0 {
        0
    } else {
        let init = ops.drop_last();
        pops_served(slots, init) + if ops.last() is Pop && ring_step(
            ring_run(slots, init),
            slots,
            ops.last(),
        ).1 {
            1nat
        } else {
            0nat
        }
    }
}

/// Law: over any history of pushes and pops on a new buffer of `slots` slots
/// (as `push` and `pop` state each step through `ring_step`), the number of
/// items held is the number of pushes accepted less the number of pops that
/// returned an item, and it never exceeds `slots - 1`.
pub proof fn law_ring_history<T>(slots: nat, ops: Seq<RingOp<T>>)
    requires
        slots >= 2,
    ensures
        ring_run(slots, ops).len() + pops_served(slots, ops) == pushes_accepted(slots, ops),
        ring_run(slots, ops).len() <= slots - 1,
    decreases ops.len(),
{
    if ops.len() > 0 {
        law_ring_history(slots, ops.drop_last());
    }
}

/// `x` brought back into `0..m`, for `x < 2m`.
pub open spec fn wrap(x: int, m: int) -> int {
    if x < m {
        x
    } else {
        x - m
    }
}

/// Below twice the modulus, `%` subtracts it at most once.
proof fn lemma_mod_below_twice(x: int, m: int)
    requires
        0 <= x < 2 * m,
    ensures
        x % m == wrap(x, m),
{
    if x < m {
        lemma_small_mod(x as nat, m as nat);
    } else {
        lemma_small_mod((x - m) as nat, m as nat);
        lemma_mod_multiples_vanish(1, x - m, m);
    }
}

/// A ring buffer with a power-of-two number of slots that holds at most one
/// item fewer than it has slots. It is the queue for one producer and one
/// consumer, but `push` and `pop` take `&mut self`: it is not lock-free, and
/// to be shared between threads it must sit behind a lock.
pub struct SpscRingBuffer<T> {
    buf: Vec<Option<T>>,
    mask: usize,
    head: usize,
    tail: usize,
    log_capacity: Ghost<nat>,
}

impl<T> SpscRingBuffer<T> {
    /// The number of slots.
    pub closed spec fn spec_capacity(&self) -> nat {
        (self.mask + 1) as nat
    }

    /// The number of items held.
    pub closed spec fn spec_len(&self) -> nat {
        if self.tail >= self.head {
            (self.tail - self.head) as nat
        } else {
            (self.tail + self.mask + 1 - self.head) as nat
        }
    }

    /// The slot of the `i`-th item from the head.
    closed spec fn slot(&self, i: int) -> int {
        wrap(self.head + i, self.mask + 1)
    }

    /// The slots are a power of two, `mask` selects a slot, head and tail are
    /// slots, and every slot from the head up to the tail holds an item.
    pub closed spec fn wf(&self) -> bool {
        &&& 1 <= self.log_capacity@ < usize::BITS
        &&& self.mask + 1 == pow2(self.log_capacity@)
        &&& self.mask == low_bits_mask(self.log_capacity@)
        &&& self.buf@.len() == self.mask + 1
        &&& self.head <= self.mask
        &&& self.tail <= self.mask
        &&& forall|i: int| 0 <= i < self.spec_len() ==> #[trigger] self.buf@[self.slot(i)] is Some
    }
}

impl<T> SpscRingBuffer<T> {
    /// The slot count fits with room to spare, and the items are fewer.
    proof fn lemma_wf_bounds(&self)
        requires
            self.wf(),
        ensures
            2 <= self.mask + 1 < usize::MAX,
            self.spec_len() < self.mask + 1,
    {
        vstd::bits::lemma_usize_pow2_no_overflow(self.log_capacity@);
        vstd::arithmetic::power2::lemma_pow2_strictly_increases(0, self.log_capacity@);
        lemma2_to64();
    }
}

/// Law: one slot is always left empty. A well-formed buffer has at least two
/// slots and holds fewer items than it has slots.
pub proof fn law_one_slot_free<T>(buffer: &SpscRingBuffer<T>)
    requires
        buffer.wf(),
    ensures
        2 <= buffer.spec_capacity(),
        buffer@.len() < buffer.spec_capacity(),
{
    buffer.lemma_wf_bounds();
}

impl<T> View for SpscRingBuffer<T> {
    type V = Seq<T>;

    /// The items held, oldest first.
    closed spec fn view(&self) -> Seq<T> {
        Seq::new(self.spec_len(), |i: int| self.buf@[self.slot(i)].unwrap())
    }
}

impl<T> SpscRingBuffer<T> {
    /// An empty buffer with the smallest power-of-two number of slots that
    /// is at least `capacity` and at least 2.
    pub fn new(capacity: usize) -> (buffer: Self)
        requires
            capacity <= usize::MAX / 2 + 1,
        ensures
            buffer.wf(),
            buffer@ == Seq::<T>::empty(),
            is_ring_capacity(capacity as nat, buffer.spec_capacity()),
    {
        let p = next_power_of_two(capacity);
        let cap = if p < 2 {
            2
        } else {
            p
        };
        let ghost k = choose|k: nat|
            k < usize::BITS && p == #[trigger] pow2(k) && p >= capacity && (k == 0 || pow2((k - 1) as nat) < capacity);
        let ghost log = if k == 0 {
            1nat
        } else {
            k
        };
        proof {
            lemma2_to64();
            if k == 0 {
                assert(pow2(0) == 1);
                assert(pow2(1) == 2);
            }
            vstd::bits::lemma_low_bits_mask_unfold(log);
            assert(low_bits_mask(log) == pow2(log) - 1);
            assert(is_ring_capacity(capacity as nat, cap as nat)) by {
                if k == 0 {
                    assert(pow2((log - 1) as nat) == 1);
                }
            }
        }
        let mut vec = Vec::with_capacity(cap);
        let mut i: usize = 0;
        while i < cap
            invariant
                i <= cap,
                vec@.len() == i,
            decreases cap - i,
        {
            vec.push(None);
            i += 1;
        }
        let buffer = Self { buf: vec, mask: cap - 1, head: 0, tail: 0, log_capacity: Ghost(log) };
        assert(buffer@ =~= Seq::<T>::empty());
        buffer
    }

    /// The number of slots.
    pub fn capacity(&self) -> (slots: usize)
        requires
            self.wf(),
        ensures
            slots == self.spec_capacity(),
    {
        proof {
            self.lemma_wf_bounds();
        }
        self.mask + 1
    }

    /// The number of items held.
    pub fn len(&self) -> (n: usize)
        requires
            self.wf(),
        ensures
            n == self@.len(),
            n < self.spec_capacity(),
    {
        proof {
            self.lemma_wf_bounds();
        }
        let head = self.head;
        let tail = self.tail;
        let diff = tail.wrapping_sub(head);
        proof {
            let k = self.log_capacity@;
            let cap = self.mask + 1;
            lemma_usize_low_bits_mask_is_mod(diff, k);
            if tail >= head {
                lemma_small_mod(diff as nat, cap as nat);
            } else {
                lemma2_to64();
                assert(usize::MAX as nat + 1 == pow2(usize::BITS as nat));
                let rest = (usize::BITS - k) as nat;
                lemma_pow2_adds(k, rest);
                lemma_pow2_pos(rest);
                assert(diff == cap * pow2(rest) + (tail - head));
                lemma_mod_multiples_vanish(pow2(rest) as int, tail - head, cap as int);
                vstd::arithmetic::div_mod::lemma_mod_add_multiples_vanish(tail - head, cap as int);
                lemma_small_mod((cap + (tail - head)) as nat, cap as nat);
            }
        }
        diff & self.mask
    }

    /// Nothing is held.
    pub fn is_empty(&self) -> (empty: bool)
        requires
            self.wf(),
        ensures
            empty == (self@.len() == 0),
    {
        self.head == self.tail
    }

    /// As many items are held as the buffer can hold: one fewer than its slots.
    pub fn is_full(&self) -> (full: bool)
        requires
            self.wf(),
        ensures
            full == (self@.len() == self.spec_capacity() - 1),
    {
        self.len() == self.capacity() - 1
    }

    /// Appends `item`, or hands it back when the buffer is full.
    pub fn push(&mut self, item: T) -> (result: Result<(), T>)
        requires
            old(self).wf(),
        ensures
            final(self).wf(),
            final(self).spec_capacity() == old(self).spec_capacity(),
            (final(self)@, result is Ok) == ring_step(
                old(self)@,
                old(self).spec_capacity(),
                RingOp::Push(item),
            ),
            match result {
                Ok(()) => {
                    &&& old(self)@.len() < old(self).spec_capacity() - 1
                    &&& final(self)@ == old(self)@.push(item)
                },
                Err(back) => {
                    &&& old(self)@.len() == old(self).spec_capacity() - 1
                    &&& back == item
                    &&& final(self)@ == old(self)@
                },
            },
    {
        proof {
            self.lemma_wf_bounds();
        }
        let ghost before = *self;
        let tail = self.tail;
        let next_tail = (tail + 1) & self.mask;
        let head = self.head;
        let ghost cap = self.mask + 1;
        proof {
            lemma_usize_low_bits_mask_is_mod((tail + 1) as usize, self.log_capacity@);
            lemma_mod_below_twice(tail + 1, cap as int);
        }

        if next_tail == head {
            return Err(item);
        }

        assert(before.slot(before.spec_len() as int) == tail);
        self.buf.set(tail, Some(item));
        self.tail = next_tail;
        proof {
            assert forall|i: int| 0 <= i < before.spec_len() implies before.slot(i) != tail by {}
            assert(self.spec_len() == before.spec_len() + 1);
            assert forall|i: int| 0 <= i < self.spec_len() implies #[trigger] self.buf@[self.slot(i)] is Some by {
                assert(self.slot(i) == before.slot(i));
                if i < before.spec_len() {
                    assert(before.buf@[before.slot(i)] is Some);
                }
            }
            assert(self@ =~= before@.push(item)) by {
                assert forall|i: int| 0 <= i < self@.len() implies self@[i] == before@.push(item)[i] by {
                    if i < before.spec_len() {
                        assert(self.slot(i) == before.slot(i));
                    }
                }
            }
        }
        Ok(())
    }

    /// Takes the oldest item out, or `None` when nothing is held.
    pub fn pop(&mut self) -> (popped: Option<T>)
        requires
            old(self).wf(),
        ensures
            final(self).wf(),
            final(self).spec_capacity() == old(self).spec_capacity(),
            (final(self)@, popped is Some) == ring_step(old(self)@, old(self).spec_capacity(), RingOp::Pop),
            match popped {
                Some(item) => {
                    &&& old(self)@.len() > 0
                    &&& item == old(self)@[0]
                    &&& final(self)@ == old(self)@.drop_first()
                },
                None => old(self)@.len() == 0 && final(self)@ == old(self)@,
            },
    {
        proof {
            self.lemma_wf_bounds();
        }
        let ghost before = *self;
        let head = self.head;
        let tail = self.tail;

        if head == tail {
            return None;
        }

        let ghost cap = self.mask + 1;
        proof {
            lemma_usize_low_bits_mask_is_mod((head + 1) as usize, self.log_capacity@);
            lemma_mod_below_twice(head + 1, cap as int);
            assert(before.slot(0) == head);
        }
        let mut slot = None;
        std::mem::swap(&mut slot, &mut self.buf[head]);
        self.head = (head + 1) & self.mask;
        proof {
            assert forall|i: int| 0 <= i < self.spec_len() implies self.slot(i) == before.slot(i + 1) by {}
            assert(self@ =~= before@.drop_first());
        }
        slot
    }
}

} // verus!
