//! Two-part buffers whose second part becomes the first.

use vstd::prelude::*;

verus! {

/// `N` rows of two parts with `S` values each.
#[derive(Debug, Clone)]
pub struct DelayBuffer<T, const N: usize, const S: usize> {
    buffer: Vec<(Vec<T>, Vec<T>)>,
}

/// Values that `T::default` can give.
pub open spec fn is_default<T: Default>(v: T) -> bool {
    call_ensures(T::default, (), v)
}

/// `S` values that `T::default` can give.
pub open spec fn all_default<T: Default>(s: Seq<T>) -> bool {
    forall|i: int| 0 <= i < s.len() ==> is_default(#[trigger] s[i])
}

fn default_part<T: Default>(len: usize) -> (v: Vec<T>)
    ensures
        v@.len() == len,
        all_default(v@),
{
    let mut v: Vec<T> = Vec::new();
    let mut i: usize = 0;
    while i < len
        invariant
            i <= len,
            v@.len() == i,
            all_default(v@),
        decreases len - i,
    {
        v.push(T::default());
        i += 1;
    }
    v
}

impl<T: Copy + Default, const N: usize, const S: usize> DelayBuffer<T, N, S> {
    /// The first part of row `i`.
    pub closed spec fn head(&self, i: int) -> Seq<T> {
        self.buffer@[i].0@
    }

    /// The second part of row `i`.
    pub closed spec fn tail(&self, i: int) -> Seq<T> {
        self.buffer@[i].1@
    }

    pub closed spec fn num_rows(&self) -> nat {
        self.buffer@.len()
    }

    pub open spec fn wf(&self) -> bool {
        &&& self.num_rows() == N
        &&& forall|i: int| 0 <= i < N ==> #[trigger] self.head(i).len() == S
        &&& forall|i: int| 0 <= i < N ==> #[trigger] self.tail(i).len() == S
    }

    pub fn new() -> (b: Self)
        ensures
            b.wf(),
            forall|i: int| 0 <= i < N ==> all_default(#[trigger] b.head(i)),
            forall|i: int| 0 <= i < N ==> all_default(#[trigger] b.tail(i)),
    {
        let mut b: Self = DelayBuffer { buffer: Vec::new() };
        let mut i: usize = 0;
        while i < N
            invariant
                i <= N,
                b.buffer@.len() == i,
                forall|k: int|
                    0 <= k < i ==> #[trigger] b.head(k).len() == S && all_default(b.head(k)),
                forall|k: int|
                    0 <= k < i ==> #[trigger] b.tail(k).len() == S && all_default(b.tail(k)),
            decreases N - i,
        {
            let ghost before = b;
            let first: Vec<T> = default_part::<T>(S);
            let second: Vec<T> = default_part::<T>(S);
            b.buffer.push((first, second));
            proof {
                assert forall|k: int| 0 <= k < i + 1 implies #[trigger] b.head(k).len() == S
                    && all_default(b.head(k)) by {
                    if k < i {
                        assert(b.head(k) == before.head(k));
                    }
                }
                assert forall|k: int| 0 <= k < i + 1 implies #[trigger] b.tail(k).len() == S
                    && all_default(b.tail(k)) by {
                    if k < i {
                        assert(b.tail(k) == before.tail(k));
                    }
                }
            }
            i += 1;
        }
        b
    }

    /// Makes the second part of every row the first; the second part is emptied
    /// or kept.
    pub fn shift(&mut self, erase: bool)
        requires
            old(self).wf(),
        ensures
            final(self).wf(),
            forall|i: int| 0 <= i < N ==> #[trigger] final(self).head(i) == old(self).tail(i),
            forall|i: int|
                0 <= i < N ==> if erase {
                    all_default(#[trigger] final(self).tail(i))
                } else {
                    final(self).tail(i) == old(self).tail(i)
                },
    {
        let mut i: usize = 0;
        while i < N
            invariant
                i <= N,
                self.buffer@.len() == N,
                old(self).wf(),
                forall|k: int| 0 <= k < i ==> #[trigger] self.head(k) == old(self).tail(k),
                forall|k: int|
                    0 <= k < i ==> (#[trigger] self.tail(k)).len() == S && if erase {
                        all_default(self.tail(k))
                    } else {
                        self.tail(k) == old(self).tail(k)
                    },
                forall|k: int| i <= k < N ==> #[trigger] self.buffer@[k] == old(self).buffer@[k],
            decreases N - i,
        {
            let ghost before = *self;
            let second: Vec<T> = copy_part(&self.buffer[i].1);
            let ghost moved = second@;
            let rest: Vec<T> = if erase {
                default_part::<T>(S)
            } else {
                copy_part(&self.buffer[i].1)
            };
            self.buffer[i] = (second, rest);
            proof {
                assert(old(self).tail(i as int).len() == S);
                assert(moved == old(self).tail(i as int));
                assert forall|k: int| 0 <= k < i + 1 implies #[trigger] self.head(k) == old(
                    self,
                ).tail(k) by {
                    if k < i {
                        assert(self.head(k) == before.head(k));
                    }
                }
                assert forall|k: int| 0 <= k < i + 1 implies (#[trigger] self.tail(k)).len() == S
                    && if erase {
                    all_default(self.tail(k))
                } else {
                    self.tail(k) == old(self).tail(k)
                } by {
                    if k < i {
                        assert(self.tail(k) == before.tail(k));
                    }
                }
            }
            i += 1;
        }
        proof {
            assert forall|k: int| 0 <= k < N implies #[trigger] self.head(k).len() == S by {
                assert(old(self).tail(k).len() == S);
            }
        }
    }

    pub fn first(&self, i: usize) -> (r: &[T])
        requires
            self.wf(),
            i < N,
        ensures
            r@ == self.head(i as int),
    {
        self.buffer[i].0.as_slice()
    }

    pub fn first_mut(&mut self, i: usize) -> (r: &mut [T])
        requires
            old(self).wf(),
            i < N,
        ensures
            r@ == old(self).head(i as int),
            final(self).num_rows() == old(self).num_rows(),
            final(self).head(i as int) == final(r)@,
            final(self).tail(i as int) == old(self).tail(i as int),
            forall|k: int|
                0 <= k < N && k != i ==> #[trigger] final(self).head(k) == old(self).head(k),
            forall|k: int|
                0 <= k < N && k != i ==> #[trigger] final(self).tail(k) == old(self).tail(k),
    {
        self.buffer[i].0.as_mut_slice()
    }

    pub fn second(&self, i: usize) -> (r: &[T])
        requires
            self.wf(),
            i < N,
        ensures
            r@ == self.tail(i as int),
    {
        self.buffer[i].1.as_slice()
    }

    pub fn second_mut(&mut self, i: usize) -> (r: &mut [T])
        requires
            old(self).wf(),
            i < N,
        ensures
            r@ == old(self).tail(i as int),
            final(self).num_rows() == old(self).num_rows(),
            final(self).tail(i as int) == final(r)@,
            final(self).head(i as int) == old(self).head(i as int),
            forall|k: int|
                0 <= k < N && k != i ==> #[trigger] final(self).head(k) == old(self).head(k),
            forall|k: int|
                0 <= k < N && k != i ==> #[trigger] final(self).tail(k) == old(self).tail(k),
    {
        self.buffer[i].1.as_mut_slice()
    }
}

fn copy_part<T: Copy>(v: &Vec<T>) -> (r: Vec<T>)
    ensures
        r@ == v@,
{
    let mut r: Vec<T> = Vec::new();
    let mut i: usize = 0;
    while i < v.len()
        invariant
            i <= v@.len(),
            r@ == v@.take(i as int),
        decreases v@.len() - i,
    {
        r.push(v[i]);
        i += 1;
        assert(r@ =~= v@.take(i as int));
    }
    assert(v@.take(v@.len() as int) =~= v@);
    r
}

impl<T: Copy + Default, const N: usize, const S: usize> Default for DelayBuffer<T, N, S> {
    fn default() -> (b: Self)
        ensures
            b.wf(),
            forall|i: int| 0 <= i < N ==> all_default(#[trigger] b.head(i)),
            forall|i: int| 0 <= i < N ==> all_default(#[trigger] b.tail(i)),
    {
        Self::new()
    }
}

} // verus!
