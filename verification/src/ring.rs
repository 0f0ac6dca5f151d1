use vstd::prelude::*;
use vstd::arithmetic::power2::pow2;
use vstd::arithmetic::div_mod::{lemma_small_mod, lemma_mod_multiples_vanish};
use vstd::pervasive::VecAdditionalExecFns;

verus! {

broadcast use vstd::arithmetic::power2::lemma_pow2_pos;

/// Byte-oriented circular buffer over a power-of-two capacity, with an
/// optional overwrite-on-full policy. One slot is always kept empty, so up
/// to `capacity - 1` bytes are buffered at a time; indices wrap by masking,
/// which is why the capacity must be a power of two.
pub struct RingBuffer {
    overwrite: bool,
    head: usize,
    tail: usize,
    buf: Vec<u8>,
    lg: Ghost<nat>,
}

impl RingBuffer {
    /// Number of slots (a power of two).
    pub closed spec fn capacity(self) -> int {
        self.buf@.len() as int
    }

    /// Whether a full buffer drops its oldest byte to admit a new one.
    pub closed spec fn overwrite_on_full(self) -> bool {
        self.overwrite
    }

    /// The buffered bytes, oldest first.
    pub closed spec fn contents(self) -> Seq<u8> {
        if self.head >= self.tail {
            self.buf@.subrange(self.tail as int, self.head as int)
        } else {
            self.buf@.subrange(self.tail as int, self.capacity()) + self.buf@.subrange(
                0,
                self.head as int,
            )
        }
    }

    pub closed spec fn wf(self) -> bool {
        &&& self.buf@.len() == pow2(self.lg@)
        &&& 1 <= self.lg@ <= 30
        &&& (self.head as int) < self.capacity()
        &&& (self.tail as int) < self.capacity()
    }

    proof fn lemma_len(self)
        requires
            self.wf(),
        ensures
            self.contents().len() == (self.head - self.tail + self.capacity()) % self.capacity(),
            self.contents().len() <= self.capacity() - 1,
    {
        let cap = self.capacity();
        if self.head >= self.tail {
            let d = self.head - self.tail;
            lemma_mod_multiples_vanish(1, d, cap);
            lemma_small_mod(d as nat, cap as nat);
        } else {
            let d = self.head - self.tail + cap;
            lemma_small_mod(d as nat, cap as nat);
        }
    }

    /// An empty ring with `2^lg_capacity` slots.
    pub fn new(lg_capacity: usize, overwrite: bool) -> (r: RingBuffer)
        requires
            1 <= lg_capacity <= 30,
        ensures
            r.wf(),
            r.capacity() == pow2(lg_capacity as nat),
            r.contents().len() == 0,
            r.overwrite_on_full() == overwrite,
    {
        proof {
            crate::buddy::lemma_shl_is_pow2(lg_capacity);
        }
        let n = 1usize << lg_capacity;
        let mut buf: Vec<u8> = Vec::new();
        let mut k: usize = 0;
        while k < n
            invariant
                buf@.len() == k,
                k <= n,
            decreases n - k,
        {
            buf.push(0);
            k = k + 1;
        }
        RingBuffer { overwrite, head: 0, tail: 0, buf, lg: Ghost(lg_capacity as nat) }
    }

    /// The buffer holds nothing.
    pub fn is_empty(&self) -> (r: bool)
        requires
            self.wf(),
        ensures
            r == (self.contents().len() == 0),
    {
        proof {
            self.lemma_len();
        }
        self.head == self.tail
    }

    /// The buffer holds as much as it can.
    pub fn is_full(&self) -> (r: bool)
        requires
            self.wf(),
        ensures
            r == (self.contents().len() == self.capacity() - 1),
    {
        proof {
            self.lemma_len();
            let cap = self.capacity();
            if self.head as int + 1 < cap {
                lemma_small_mod((self.head + 1) as nat, cap as nat);
            } else {
                lemma_mod_multiples_vanish(1, 0, cap);
            }
        }
        let nh = self.next(self.head);
        nh == self.tail
    }

    /// The slot index after `v`, wrapping at the capacity.
    fn next(&self, v: usize) -> (r: usize)
        requires
            self.wf(),
            v < self.capacity(),
        ensures
            r as int == (v + 1) % self.capacity(),
            r < self.capacity(),
    {
        proof {
            crate::buddy::lemma_shl_is_pow2(30);
            crate::buddy::lemma_pow2_mono(self.lg@, 30);
            assert(self.buf@.len() - 1 == vstd::bits::low_bits_mask(self.lg@) as usize);
            vstd::bits::lemma_usize_low_bits_mask_is_mod((v + 1) as usize, self.lg@);
        }
        (v + 1) & (self.buf.len() - 1)
    }

    /// Stores `v` at the head of the ring. A full ring either refuses the
    /// byte (reporting failure) or, under the overwrite policy, drops its
    /// oldest byte to make room; otherwise the byte is appended.
    pub fn push(&mut self, v: u8) -> (r: bool)
        requires
            old(self).wf(),
        ensures
            final(self).wf(),
            final(self).capacity() == old(self).capacity(),
            final(self).overwrite_on_full() == old(self).overwrite_on_full(),
            old(self).contents().len() < old(self).capacity() - 1
                ==> r && final(self).contents() == old(self).contents().push(v),
            old(self).contents().len() == old(self).capacity() - 1
                && !old(self).overwrite_on_full()
                ==> !r && *final(self) == *old(self),
            old(self).contents().len() == old(self).capacity() - 1
                && old(self).overwrite_on_full()
                ==> r && final(self).contents() == old(self).contents().drop_first().push(v),
    {
        proof {
            old(self).lemma_len();
        }
        if self.is_full() {
            if !self.overwrite {
                return false;
            }
            let nt = self.next(self.tail);
            self.tail = nt;
        }
        let h = self.head;
        self.buf.set(h, v);
        let nh = self.next(self.head);
        self.head = nh;
        proof {
            self.lemma_len();
            let prev = *old(self);
            let cap = prev.capacity();
            assert((prev.head + 1) % cap == (if prev.head + 1 < cap {
                prev.head + 1
            } else {
                0int
            })) by {
                if prev.head + 1 < cap {
                    lemma_small_mod((prev.head + 1) as nat, cap as nat);
                } else {
                    lemma_mod_multiples_vanish(1, 0, cap);
                    lemma_small_mod(0nat, cap as nat);
                }
            }
            assert((prev.tail + 1) % cap == (if prev.tail + 1 < cap {
                prev.tail + 1
            } else {
                0int
            })) by {
                if prev.tail + 1 < cap {
                    lemma_small_mod((prev.tail + 1) as nat, cap as nat);
                } else {
                    lemma_mod_multiples_vanish(1, 0, cap);
                    lemma_small_mod(0nat, cap as nat);
                }
            }
            vstd::arithmetic::power2::lemma2_to64();
            crate::buddy::lemma_pow2_mono(1, prev.lg@);
            assert(cap >= 2);
            let plen = prev.contents().len() as int;
            let mid_tail: int = if plen == cap - 1 {
                (prev.tail + 1) % cap
            } else {
                prev.tail as int
            };
            let goal: Seq<u8> = if plen == cap - 1 {
                prev.contents().drop_first().push(v)
            } else {
                prev.contents().push(v)
            };
            let t = prev.tail as int;
            let h = prev.head as int;
            assert(self.tail as int == mid_tail);
            assert(self.contents() =~= goal) by {
                assert(self.contents().len() == goal.len());
                assert forall|j: int| 0 <= j < goal.len() implies self.contents()[j] == goal[
                    j] by {
                    let newbuf = prev.buf@.update(h, v);
                    lemma_ring_index(newbuf, mid_tail, self.head as int, j);
                    let d: int = if mid_tail + j < cap {
                        mid_tail + j
                    } else {
                        mid_tail + j - cap
                    };
                    assert((mid_tail + j) % cap == d) by {
                        if mid_tail + j < cap {
                            lemma_small_mod((mid_tail + j) as nat, cap as nat);
                        } else {
                            lemma_mod_multiples_vanish(1, mid_tail + j - cap, cap);
                            lemma_small_mod((mid_tail + j - cap) as nat, cap as nat);
                        }
                    }
                    let jold: int = if plen == cap - 1 {
                        j + 1
                    } else {
                        j
                    };
                    if jold < plen {
                        lemma_ring_index(prev.buf@, t, h, jold);
                        let d0: int = if t + jold < cap {
                            t + jold
                        } else {
                            t + jold - cap
                        };
                        assert((t + jold) % cap == d0) by {
                            if t + jold < cap {
                                lemma_small_mod((t + jold) as nat, cap as nat);
                            } else {
                                lemma_mod_multiples_vanish(1, t + jold - cap, cap);
                                lemma_small_mod((t + jold - cap) as nat, cap as nat);
                            }
                        }
                        assert(d == d0);
                        assert(d0 != h);
                    } else {
                        assert(d == h);
                    }
                }
            }
        }
        true
    }

    /// Takes the oldest byte out of the ring, if one is buffered.
    pub fn pop(&mut self) -> (r: Option<u8>)
        requires
            old(self).wf(),
        ensures
            final(self).wf(),
            final(self).capacity() == old(self).capacity(),
            final(self).overwrite_on_full() == old(self).overwrite_on_full(),
            old(self).contents().len() == 0 ==> r is None && *final(self) == *old(self),
            old(self).contents().len() > 0
                ==> r == Some(old(self).contents()[0])
                    && final(self).contents() == old(self).contents().drop_first(),
    {
        proof {
            old(self).lemma_len();
        }
        if self.is_empty() {
            return None;
        }
        let t = self.tail;
        let v = self.buf[t];
        let nt = self.next(self.tail);
        self.tail = nt;
        proof {
            self.lemma_len();
            let prev = *old(self);
            let cap = prev.capacity();
            assert((prev.tail + 1) % cap == (if prev.tail + 1 < cap {
                prev.tail + 1
            } else {
                0int
            })) by {
                if prev.tail + 1 < cap {
                    lemma_small_mod((prev.tail + 1) as nat, cap as nat);
                } else {
                    lemma_mod_multiples_vanish(1, 0, cap);
                    lemma_small_mod(0nat, cap as nat);
                }
            }
            assert(self.contents() =~= prev.contents().drop_first()) by {
                assert forall|j: int| 0 <= j < prev.contents().len() - 1
                    implies self.contents()[j] == prev.contents().drop_first()[j] by {
                    lemma_ring_index(prev.buf@, (prev.tail + 1) % prev.capacity(),
                        prev.head as int, j);
                    lemma_ring_index(prev.buf@, prev.tail as int, prev.head as int, j);
                    lemma_ring_index(prev.buf@, prev.tail as int, prev.head as int, j + 1);
                }
            }
            assert(prev.contents()[0] == v) by {
                lemma_ring_index(prev.buf@, prev.tail as int, prev.head as int, 0);
                lemma_small_mod(prev.tail as nat, prev.capacity() as nat);
            }
        }
        Some(v)
    }
}

/// Positional reading of a ring segment: byte `j` of the window that starts
/// at `tail` and ends before `head` sits at slot `(tail + j) % capacity`.
proof fn lemma_ring_index(buf: Seq<u8>, tail: int, head: int, j: int)
    requires
        0 <= tail < buf.len(),
        0 <= head < buf.len(),
        0 <= j,
        j < (if head >= tail {
            head - tail
        } else {
            head - tail + buf.len()
        }),
    ensures
        (if head >= tail {
            buf.subrange(tail, head)
        } else {
            buf.subrange(tail, buf.len() as int) + buf.subrange(0, head)
        })[j] == buf[(tail + j) % (buf.len() as int)],
{
    let cap = buf.len() as int;
    if tail + j < cap {
        lemma_small_mod((tail + j) as nat, cap as nat);
    } else {
        lemma_mod_multiples_vanish(1, tail + j - cap, cap);
        lemma_small_mod((tail + j - cap) as nat, cap as nat);
    }
}

} // verus!
