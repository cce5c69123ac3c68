use vstd::prelude::*;

verus! {

/// What a buffer of capacity `cap` holds after `item` is pushed onto the
/// contents `s` (oldest first): the item is appended, and when the buffer was
/// already full the oldest element falls out.
pub open spec fn ring_push<T>(s: Seq<T>, cap: nat, item: T) -> Seq<T> {
    if s.len() < cap {
        s.push(item)
    } else {
        s.drop_first().push(item)
    }
}

/// The contents after pushing every element of `items`, in order, onto `s`.
pub open spec fn ring_push_all<T>(s: Seq<T>, cap: nat, items: Seq<T>) -> Seq<T>
    decreases items.len(),
{
    if items.len() == 0 {
        s
    } else {
        ring_push_all(ring_push(s, cap, items[0]), cap, items.drop_first())
    }
}

/// The capacity that a buffer created with `cap` really has: at least one.
pub open spec fn effective_cap(cap: usize) -> nat {
    if cap == 0 { 1 } else { cap as nat }
}

/// A fixed-capacity buffer that keeps the newest items, overwriting the oldest
/// once it is full.
pub struct RingBuffer<T> {
    buf: Vec<T>,
    cap: usize,
    head: usize,
}

impl<T> RingBuffer<T> {
    /// The buffer's internal invariant.
    pub closed spec fn wf(self) -> bool {
        &&& self.cap >= 1
        &&& self.buf.len() <= self.cap
        &&& self.head < self.cap
        &&& (self.buf.len() < self.cap ==> self.head == 0)
    }

    /// The number of items the buffer can hold.
    pub closed spec fn capacity(self) -> nat {
        self.cap as nat
    }

    /// The contents, oldest first.
    pub closed spec fn contents(self) -> Seq<T> {
        self.buf@.subrange(self.head as int, self.buf@.len() as int) + self.buf@.subrange(
            0,
            self.head as int,
        )
    }

    pub fn new(cap: usize) -> (r: Self)
        ensures
            r@ == Seq::<T>::empty(),
            r.capacity() == effective_cap(cap),
            r.wf(),
    {
        let c = if cap < 1 { 1 } else { cap };
        let r = RingBuffer { buf: Vec::new(), cap: c, head: 0 };
        assert(r@ =~= Seq::<T>::empty());
        r
    }

    pub fn push(&mut self, item: T)
        requires
            old(self).wf(),
        ensures
            final(self).wf(),
            final(self)@ == ring_push(old(self)@, old(self).capacity(), item),
            final(self).capacity() == old(self).capacity(),
            1 <= old(self).capacity(),
            old(self)@.len() <= old(self).capacity(),
            final(self)@.len() <= final(self).capacity(),
    {
        let ghost before = self@;
        if self.buf.len() < self.cap {
            self.buf.push(item);
            assert(self@ =~= before.push(item));
        } else {
            let h = self.head;
            let ghost old_buf = self.buf@;
            self.buf.set(h, item);
            let nh = if h + 1 == self.cap { 0 } else { h + 1 };
            self.head = nh;
            assert(self@ =~= before.drop_first().push(item)) by {
                assert(before =~= old_buf.subrange(h as int, old_buf.len() as int)
                    + old_buf.subrange(0, h as int));
                if nh == 0 {
                    assert(self.buf@ =~= old_buf.subrange(0, h as int).push(item));
                }
            }
        }
    }

    /// A well-formed buffer never holds more items than its capacity.
    pub proof fn lemma_within_capacity(&self)
        requires
            self.wf(),
        ensures
            1 <= self.capacity(),
            self@.len() <= self.capacity(),
    {
    }

    pub fn len(&self) -> (n: usize)
        requires
            self.wf(),
        ensures
            n == self@.len(),
    {
        self.buf.len()
    }

    pub fn is_empty(&self) -> (b: bool)
        requires
            self.wf(),
        ensures
            b == (self@.len() == 0),
    {
        self.buf.len() == 0
    }

    /// References to the items, oldest first.
    pub fn iter(&self) -> (v: Vec<&T>)
        requires
            self.wf(),
        ensures
            v@.len() == self@.len(),
            forall|i: int| 0 <= i < v@.len() ==> *#[trigger] v@[i] == self@[i],
    {
        let n = self.buf.len();
        let h = self.head;
        let mut out: Vec<&T> = Vec::new();
        let mut k: usize = 0;
        while k < n
            invariant
                self.wf(),
                n == self.buf.len(),
                h == self.head,
                h < n || (h == 0),
                k <= n,
                out@.len() == k,
                forall|i: int| 0 <= i < k ==> *#[trigger] out@[i] == self@[i],
            decreases n - k,
        {
            let idx = if k < n - h { h + k } else { k - (n - h) };
            out.push(&self.buf[idx]);
            k = k + 1;
        }
        out
    }
}

impl<T: Clone> RingBuffer<T> {
    /// Clones of the items, oldest first.
    pub fn to_vec(&self) -> (v: Vec<T>)
        requires
            self.wf(),
        ensures
            v@.len() == self@.len(),
            forall|i: int| 0 <= i < v@.len() ==> cloned::<T>(self@[i], #[trigger] v@[i]),
    {
        let refs = self.iter();
        let mut out: Vec<T> = Vec::new();
        let mut k: usize = 0;
        while k < refs.len()
            invariant
                self.wf(),
                refs@.len() == self@.len(),
                forall|i: int| 0 <= i < refs@.len() ==> *#[trigger] refs@[i] == self@[i],
                k <= refs@.len(),
                out@.len() == k,
                forall|i: int| 0 <= i < k ==> cloned::<T>(self@[i], #[trigger] out@[i]),
            decreases refs@.len() - k,
        {
            let x = refs[k].clone();
            out.push(x);
            k = k + 1;
        }
        out
    }
}

impl<T> View for RingBuffer<T> {
    type V = Seq<T>;

    open spec fn view(&self) -> Seq<T> {
        self.contents()
    }
}

/// Pushing items one by one onto an empty buffer leaves exactly the newest
/// `min(cap, n)` of them, oldest first.
pub proof fn lemma_ring_keeps_newest<T>(cap: nat, items: Seq<T>)
    requires
        cap >= 1,
    ensures
        ring_push_all(Seq::<T>::empty(), cap, items) == items.subrange(
            items.len() - (if items.len() < cap { items.len() } else { cap }),
            items.len() as int,
        ),
{
    lemma_push_all_suffix(Seq::<T>::empty(), cap, items);
    let n = items.len();
    let m: int = if n < cap { n as int } else { cap as int };
    assert(Seq::<T>::empty() + items =~= items);
}

/// Pushing `items` onto contents `s` that already fit the capacity keeps the
/// newest part of `s + items` that fits.
proof fn lemma_push_all_suffix<T>(s: Seq<T>, cap: nat, items: Seq<T>)
    requires
        cap >= 1,
        s.len() <= cap,
    ensures
        ({
            let all = s + items;
            let m: int = if all.len() < cap { all.len() as int } else { cap as int };
            ring_push_all(s, cap, items) == all.subrange(all.len() - m, all.len() as int)
        }),
    decreases items.len(),
{
    let all = s + items;
    if items.len() == 0 {
        assert(all =~= s);
        assert(all.subrange(0, all.len() as int) =~= s);
    } else {
        let s2 = ring_push(s, cap, items[0]);
        lemma_push_all_suffix(s2, cap, items.drop_first());
        let all2 = s2 + items.drop_first();
        if s.len() < cap {
            assert(all2 =~= all);
        } else {
            assert(all2 =~= all.drop_first());
        }
        let m: int = if all.len() < cap { all.len() as int } else { cap as int };
        let m2: int = if all2.len() < cap { all2.len() as int } else { cap as int };
        assert(all2.subrange(all2.len() - m2, all2.len() as int) =~= all.subrange(
            all.len() - m,
            all.len() as int,
        ));
    }
}

} // verus!
