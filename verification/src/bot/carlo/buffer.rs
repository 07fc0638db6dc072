use vstd::prelude::*;

verus! {

/// A first-in first-out queue of at most `N` elements in a ring of `N` slots.
pub struct Buffer<T, const N: usize> {
    buf: Vec<T>,
    i: usize,
    len: usize,
}

impl<T: Copy, const N: usize> Buffer<T, N> {
    /// The ring has `N` slots, the head is a slot and no more than `N` are queued.
    pub closed spec fn wf(&self) -> bool {
        &&& self.buf@.len() == N
        &&& 0 < N <= usize::MAX / 2
        &&& self.i < N
        &&& self.len <= N
    }

    /// The queued elements, first to leave first.
    pub closed spec fn view(&self) -> Seq<T> {
        Seq::new(self.len as nat, |k: int| self.buf@[(self.i + k) % (N as int)])
    }

    /// An empty buffer whose slots hold `fill`.
    pub fn new(fill: T) -> (b: Self)
        requires
            0 < N <= usize::MAX / 2,
        ensures
            b.wf(),
            b.view() == Seq::<T>::empty(),
    {
        let mut buf: Vec<T> = Vec::new();
        let mut k: usize = 0;
        while k < N
            invariant
                k <= N,
                buf@.len() == k,
            decreases N - k,
        {
            buf.push(fill);
            k += 1;
        }
        let b = Buffer { buf, i: 0, len: 0 };
        assert(b.view() =~= Seq::<T>::empty());
        b
    }

    /// Queues `e` behind the others; the buffer must not be full.
    pub fn insert(&mut self, e: T)
        requires
            old(self).wf(),
            old(self).view().len() < N,
        ensures
            final(self).wf(),
            final(self).view() == old(self).view().push(e),
    {
        let slot = (self.i + self.len) % N;
        let ghost before = self.view();
        self.buf.set(slot, e);
        self.len = self.len + 1;
        proof {
            assert forall|k: int| 0 <= k < before.len() implies #[trigger] self.view()[k] == before[k] by {
                lemma_distinct_slots(self.i as int, k, self.len - 1, N as int);
            }
            assert(self.view() =~= before.push(e));
        }
    }

    /// The element that would leave first; the buffer must not be empty.
    pub fn peek_first(&self) -> (r: &T)
        requires
            self.wf(),
            self.view().len() > 0,
        ensures
            *r == self.view()[0],
    {
        proof {
            assert((self.i as int) % (N as int) == self.i) by {
                vstd::arithmetic::div_mod::lemma_small_mod(self.i as nat, N as nat);
            }
        }
        &self.buf[self.i]
    }

    /// Takes out the element that has waited longest; the buffer must not be empty.
    pub fn pop_first(&mut self) -> (r: T)
        requires
            old(self).wf(),
            old(self).view().len() > 0,
        ensures
            final(self).wf(),
            r == old(self).view()[0],
            final(self).view() == old(self).view().drop_first(),
    {
        let ghost before = self.view();
        proof {
            vstd::arithmetic::div_mod::lemma_small_mod(self.i as nat, N as nat);
        }
        let e = self.buf[self.i];
        let ghost old_i = self.i as int;
        self.i = (self.i + 1) % N;
        self.len = self.len - 1;
        proof {
            assert forall|k: int| 0 <= k < self.len implies #[trigger] self.view()[k] == before[k + 1] by {
                lemma_mod_shift(old_i, k, N as int);
            }
            assert(self.view() =~= before.drop_first());
        }
        e
    }

    /// The queued elements in the order they will leave.
    pub fn iter(&self) -> (v: Vec<T>)
        requires
            self.wf(),
        ensures
            v@ == self.view(),
    {
        let mut v: Vec<T> = Vec::new();
        let mut k: usize = 0;
        while k < self.len
            invariant
                self.wf(),
                k <= self.len,
                v@ == self.view().subrange(0, k as int),
            decreases self.len - k,
        {
            proof {
                assert((self.i + k) % (N as int) < N) by {
                    vstd::arithmetic::div_mod::lemma_mod_bound((self.i + k) as int, N as int);
                }
            }
            v.push(self.buf[(self.i + k) % N]);
            k += 1;
            assert(v@ =~= self.view().subrange(0, k as int));
        }
        assert(v@ =~= self.view());
        v
    }

    pub fn non_empty(&self) -> (r: bool)
        requires
            self.wf(),
        ensures
            r == (self.view().len() != 0),
    {
        self.len != 0
    }

    pub fn empty(&self) -> (r: bool)
        requires
            self.wf(),
        ensures
            r == (self.view().len() == 0),
    {
        self.len == 0
    }

    /// The number of queued elements.
    pub fn count(&self) -> (r: usize)
        requires
            self.wf(),
        ensures
            r == self.view().len(),
    {
        self.len
    }
}

impl<T: Copy, const N: usize> Clone for Buffer<T, N> {
    fn clone(&self) -> (r: Self)
        ensures
            self.wf() ==> r.wf(),
            r.view() == self.view(),
    {
        let mut buf: Vec<T> = Vec::new();
        let mut k: usize = 0;
        while k < self.buf.len()
            invariant
                k <= self.buf@.len(),
                buf@ == self.buf@.subrange(0, k as int),
            decreases self.buf.len() - k,
        {
            buf.push(self.buf[k]);
            k += 1;
            assert(buf@ =~= self.buf@.subrange(0, k as int));
        }
        assert(buf@ =~= self.buf@);
        let r = Buffer { buf, i: self.i, len: self.len };
        assert(r.view() =~= self.view());
        r
    }
}

impl<T: Copy + Default, const N: usize> Buffer<T, N> {
    /// An empty buffer whose slots hold the default value.
    pub fn new_default() -> (b: Self)
        requires
            0 < N <= usize::MAX / 2,
        ensures
            b.wf(),
            b.view() == Seq::<T>::empty(),
    {
        Self::new(T::default())
    }
}

/// Slots `i + k` and `i + len` of a ring of `n` differ when `k < len <= n - 1`.
proof fn lemma_distinct_slots(i: int, k: int, len: int, n: int)
    requires
        0 <= i < n,
        0 <= k < len,
        len < n,
    ensures
        (i + k) % n != (i + len) % n,
{
    let a = i + k;
    let b = i + len;
    assert(0 < b - a < n);
    if a % n == b % n {
        vstd::arithmetic::div_mod::lemma_fundamental_div_mod(a, n);
        vstd::arithmetic::div_mod::lemma_fundamental_div_mod(b, n);
        assert(b - a == n * (b / n) - n * (a / n));
        assert(n * (b / n) - n * (a / n) == n * (b / n - a / n)) by (nonlinear_arith);
        let q = b / n - a / n;
        assert(0 < n * q < n);
        assert(false) by (nonlinear_arith)
            requires
                0 < n * q < n,
                n > 0,
        ;
    }
}

proof fn lemma_mod_shift(i: int, k: int, n: int)
    requires
        0 <= i < n,
        0 <= k,
    ensures
        ((i + 1) % n + k) % n == (i + (k + 1)) % n,
{
    vstd::arithmetic::div_mod::lemma_add_mod_noop(i + 1, k, n);
    vstd::arithmetic::div_mod::lemma_add_mod_noop((i + 1) % n, k, n);
    vstd::arithmetic::div_mod::lemma_mod_twice(i + 1, n);
}

/// Queueing and taking out commute on a buffer that holds something: taking
/// out after queueing `e` gives the same element and the same contents as
/// queueing `e` after taking out, so what was queued first leaves first.
pub proof fn lemma_insert_pop_commute<T: Copy, const N: usize>(b: Buffer<T, N>, e: T)
    requires
        b.wf(),
        b.view().len() > 0,
    ensures
        b.view().push(e)[0] == b.view()[0],
        b.view().push(e).drop_first() == b.view().drop_first().push(e),
{
    assert(b.view().push(e).drop_first() =~= b.view().drop_first().push(e));
}

} // verus!
