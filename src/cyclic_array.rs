use crate::error::MarkovError;
use vstd::prelude::*;

verus! {

/// The slot that a logical index resolves to in a buffer of `capacity` slots.
pub open spec fn slot_of(index: int, capacity: int) -> int {
    index % capacity
}

/// The slots of `s` read from `offset` on, wrapping once.
pub open spec fn offset_read<T>(s: Seq<T>, offset: int) -> Seq<T> {
    Seq::new(s.len(), |i: int| s[slot_of(i + offset, s.len() as int)])
}

/// `s` after `value` is written at the logical index `index`.
pub open spec fn written<T>(s: Seq<T>, index: int, value: T) -> Seq<T> {
    s.update(slot_of(index, s.len() as int), value)
}

/// A fixed-capacity buffer whose indices wrap around modulo its capacity.
pub struct CyclicArray<T> {
    data: Vec<T>,
}

impl<T> CyclicArray<T> {
    pub closed spec fn view(&self) -> Seq<T> {
        self.data@
    }

    pub open spec fn capacity(&self) -> nat {
        self.view().len()
    }

    pub open spec fn wf(&self) -> bool {
        self.capacity() > 0
    }

    /// A buffer of `size` slots, each holding `T::default()`.
    pub fn new(size: usize) -> (r: Result<CyclicArray<T>, MarkovError>)
        where
            T: Default,
        ensures
            size == 0 <==> r == Err::<CyclicArray<T>, MarkovError>(MarkovError::InvalidBufferSize),
            size > 0 ==> r is Ok,
            r matches Ok(a) ==> a.wf() && a.capacity() == size,
    {
        if size == 0 {
            return Err(MarkovError::InvalidBufferSize);
        }
        let mut data: Vec<T> = Vec::new();
        while data.len() < size
            invariant
                data.len() <= size,
            decreases size - data.len(),
        {
            data.push(T::default());
        }
        Ok(CyclicArray { data })
    }

    /// A buffer whose slots are the elements of `data`, in order.
    pub fn from_vec(data: Vec<T>) -> (r: Result<CyclicArray<T>, MarkovError>)
        ensures
            data@.len() == 0 <==> r == Err::<CyclicArray<T>, MarkovError>(
                MarkovError::EmptySourceCollection,
            ),
            data@.len() > 0 ==> r is Ok,
            r matches Ok(a) ==> a.wf() && a@ == data@,
    {
        if data.len() == 0 {
            return Err(MarkovError::EmptySourceCollection);
        }
        Ok(CyclicArray { data })
    }

    /// Resolves a logical index to the slot that holds it.
    pub fn index(&self, index: usize) -> (r: usize)
        requires
            self.wf(),
        ensures
            r as int == slot_of(index as int, self.capacity() as int),
            r < self.capacity(),
    {
        index % self.data.len()
    }

    /// The element stored for the logical index `index`.
    pub fn get(&self, index: usize) -> (r: &T)
        requires
            self.wf(),
        ensures
            *r == self@[slot_of(index as int, self.capacity() as int)],
    {
        let i = self.index(index);
        &self.data[i]
    }

    /// Stores `value` for the logical index `index`, replacing what that slot held.
    pub fn write(&mut self, index: usize, value: T)
        requires
            old(self).wf(),
        ensures
            final(self).wf(),
            final(self)@ == written(old(self)@, index as int, value),
    {
        let i = self.index(index);
        self.data.set(i, value);
    }

    /// All slots, starting at the one that `offset` resolves to and wrapping once.
    pub fn create_offset_array(&self, offset: usize) -> (r: Vec<T>)
        where
            T: Clone,
        requires
            self.wf(),
        ensures
            r@.len() == self.capacity(),
            forall|i: int|
                0 <= i < r@.len() ==> cloned(
                    #[trigger] offset_read(self@, offset as int)[i],
                    r@[i],
                ),
    {
        let n = self.data.len();
        let start = self.index(offset);
        let mut result: Vec<T> = Vec::new();
        let mut i: usize = 0;
        while i < n
            invariant
                n == self.capacity(),
                n > 0,
                start == slot_of(offset as int, n as int),
                i <= n,
                result@.len() == i,
                forall|j: int|
                    0 <= j < i ==> cloned(
                        #[trigger] offset_read(self@, offset as int)[j],
                        result@[j],
                    ),
            decreases n - i,
        {
            let idx = if i < n - start { start + i } else { i - (n - start) };
            proof {
                lemma_slot_shift(offset as int, i as int, n as int);
            }
            result.push(self.data[idx].clone());
            i += 1;
        }
        result
    }
}

/// Shifting a logical index by `i` moves its slot by `i`, wrapping once.
proof fn lemma_slot_shift(offset: int, i: int, n: int)
    requires
        n > 0,
        0 <= i < n,
        offset >= 0,
    ensures
        slot_of(offset, n) + i < n ==> slot_of(i + offset, n) == slot_of(offset, n) + i,
        slot_of(offset, n) + i >= n ==> slot_of(i + offset, n) == slot_of(offset, n) + i - n,
{
    let s = offset % n;
    let q = offset / n;
    vstd::arithmetic::div_mod::lemma_fundamental_div_mod(offset, n);
    if s + i < n {
        assert(i + offset == n * q + (s + i));
        vstd::arithmetic::div_mod::lemma_mod_multiples_vanish(q, s + i, n);
        vstd::arithmetic::div_mod::lemma_small_mod((s + i) as nat, n as nat);
    } else {
        assert(i + offset == n * (q + 1) + (s + i - n)) by (nonlinear_arith)
            requires
                offset == n * q + s,
        ;
        vstd::arithmetic::div_mod::lemma_mod_multiples_vanish(q + 1, s + i - n, n);
        vstd::arithmetic::div_mod::lemma_small_mod((s + i - n) as nat, n as nat);
    }
}

/// Distinct logical indices less than a capacity apart resolve to distinct slots.
pub proof fn lemma_slots_distinct(t: int, c: int, n: int)
    requires
        n > 0,
        0 <= t < c,
        c - t < n,
    ensures
        slot_of(t, n) != slot_of(c, n),
{
    vstd::arithmetic::div_mod::lemma_fundamental_div_mod(t, n);
    vstd::arithmetic::div_mod::lemma_fundamental_div_mod(c, n);
    let qt = t / n;
    let qc = c / n;
    if t % n == c % n {
        assert(c - t == n * (qc - qt)) by (nonlinear_arith)
            requires
                t == n * qt + t % n,
                c == n * qc + c % n,
                t % n == c % n,
        ;
        assert(false) by (nonlinear_arith)
            requires
                c - t == n * (qc - qt),
                0 < c - t < n,
        ;
    }
}

/// A logical index and that index less one capacity resolve to one slot.
pub proof fn lemma_slot_back(t: int, n: int)
    requires
        n > 0,
        t >= 0,
    ensures
        slot_of(t + n, n) == slot_of(t, n),
{
    vstd::arithmetic::div_mod::lemma_mod_multiples_vanish(1, t, n);
}

/// Index resolution repeats with the capacity: `i` and `i + k * n` name one slot.
pub proof fn lemma_index_periodic(i: int, k: int, n: int)
    requires
        n >= 1,
    ensures
        slot_of(i, n) == slot_of(i + k * n, n),
{
    vstd::arithmetic::div_mod::lemma_mod_multiples_vanish(k, i, n);
    assert(i + k * n == n * k + i) by (nonlinear_arith);
}

/// `s` after each of `vals` is written at its own position as logical index.
pub open spec fn written_in_order<T>(s: Seq<T>, vals: Seq<T>) -> Seq<T>
    decreases vals.len(),
{
    if vals.len() == 0 {
        s
    } else {
        written(written_in_order(s, vals.drop_last()), vals.len() - 1, vals.last())
    }
}

/// Writing `vals` at indices `0..m`, with `m` at most the capacity, puts them in the
/// first `m` slots.
proof fn lemma_written_prefix<T>(s: Seq<T>, vals: Seq<T>)
    requires
        vals.len() <= s.len(),
    ensures
        written_in_order(s, vals).len() == s.len(),
        forall|j: int| 0 <= j < vals.len() ==> written_in_order(s, vals)[j] == vals[j],
    decreases vals.len(),
{
    if vals.len() > 0 {
        let m = vals.len() - 1;
        lemma_written_prefix(s, vals.drop_last());
        vstd::arithmetic::div_mod::lemma_small_mod(m as nat, s.len());
        let prev = written_in_order(s, vals.drop_last());
        assert(written_in_order(s, vals) == prev.update(m, vals.last()));
        assert forall|j: int| 0 <= j < vals.len() implies written_in_order(s, vals)[j] == vals[j] by {
            if j < m {
                assert(vals.drop_last()[j] == vals[j]);
            }
        }
    }
}

/// After writes of `vals` at indices `0..n` into a buffer of capacity `n`, reading from
/// offset zero gives `vals` in their order.
pub proof fn lemma_full_write_read<T>(s: Seq<T>, vals: Seq<T>)
    requires
        s.len() >= 1,
        vals.len() == s.len(),
    ensures
        offset_read(written_in_order(s, vals), 0) == vals,
{
    lemma_written_prefix(s, vals);
    let w = written_in_order(s, vals);
    assert forall|i: int| 0 <= i < vals.len() implies offset_read(w, 0)[i] == vals[i] by {
        vstd::arithmetic::div_mod::lemma_small_mod(i as nat, s.len());
    }
    assert(offset_read(w, 0) =~= vals);
}

} // verus!
