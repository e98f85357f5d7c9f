//! Fields of an ATRAC3plus frame, gathered before they are written.

use vstd::prelude::*;
use crate::bitstream::bits;
use crate::bitstream::BitStream;

verus! {

/// A value and the number of bits that it takes.
pub type BitField = (u16, u8);

/// The bits of fields in a row.
pub open spec fn fields_bits(f: Seq<BitField>) -> Seq<bool>
    decreases f.len(),
{
    if f.len() == 0 {
        Seq::empty()
    } else {
        fields_bits(f.drop_last()) + bits::msb_bits(f.last().0 as nat, f.last().1 as nat)
    }
}

/// Every field is at most 23 bits wide.
pub open spec fn fields_wf(f: Seq<BitField>) -> bool {
    forall|i: int| 0 <= i < f.len() ==> (#[trigger] f[i]).1 <= 23
}

pub proof fn lemma_fields_bits_push(f: Seq<BitField>, x: BitField)
    ensures
        fields_bits(f.push(x)) == fields_bits(f) + bits::msb_bits(x.0 as nat, x.1 as nat),
        fields_bits(f.push(x)).len() == fields_bits(f).len() + x.1,
{
    assert(f.push(x).drop_last() =~= f);
}

/// Fields put after others that are put after `start`.
pub proof fn lemma_after(start: Seq<BitField>, first: Seq<BitField>, more: Seq<BitField>)
    ensures
        start + first + more == start + (first + more),
{
    assert(start + first + more =~= start + (first + more));
}

/// A field put after others that are put after `start`.
pub proof fn lemma_after_one(start: Seq<BitField>, first: Seq<BitField>, field: BitField)
    ensures
        (start + first).push(field) == start + (first + seq![field]),
{
    assert((start + first).push(field) =~= start + (first + seq![field]));
}

pub proof fn lemma_fields_bits_concat(a: Seq<BitField>, b: Seq<BitField>)
    ensures
        fields_bits(a + b) == fields_bits(a) + fields_bits(b),
    decreases b.len(),
{
    if b.len() == 0 {
        assert(a + b =~= a);
        assert(fields_bits(a) + fields_bits(b) =~= fields_bits(a));
    } else {
        assert((a + b).drop_last() =~= a + b.drop_last());
        lemma_fields_bits_concat(a, b.drop_last());
        assert(fields_bits(a + b) =~= fields_bits(a) + fields_bits(b));
    }
}

pub proof fn lemma_fields_wf_concat(a: Seq<BitField>, b: Seq<BitField>)
    requires
        fields_wf(a),
        fields_wf(b),
    ensures
        fields_wf(a + b),
{
}

pub proof fn lemma_fields_bits_bound(f: Seq<BitField>)
    requires
        fields_wf(f),
    ensures
        fields_bits(f).len() <= 23 * f.len(),
    decreases f.len(),
{
    if f.len() > 0 {
        assert(f.last() == f[f.len() - 1]);
        lemma_fields_bits_bound(f.drop_last());
    }
}

proof fn lemma_fields_bits_prefix(f: Seq<BitField>, k: int)
    requires
        0 <= k <= f.len(),
    ensures
        fields_bits(f.take(k)).len() <= fields_bits(f).len(),
{
    assert(f =~= f.take(k) + f.skip(k));
    lemma_fields_bits_concat(f.take(k), f.skip(k));
}

/// Counts the bits of fields.
pub fn count_bits(f: &Vec<BitField>) -> (n: usize)
    requires
        fields_bits(f@).len() <= usize::MAX,
    ensures
        n == fields_bits(f@).len(),
{
    let mut n: usize = 0;
    let mut i: usize = 0;
    assert(f@.take(0) =~= Seq::<BitField>::empty());
    while i < f.len()
        invariant
            i <= f@.len(),
            n == fields_bits(f@.take(i as int)).len(),
            fields_bits(f@).len() <= usize::MAX,
        decreases f@.len() - i,
    {
        proof {
            assert(f@.take(i + 1) =~= f@.take(i as int).push(f@[i as int]));
            lemma_fields_bits_push(f@.take(i as int), f@[i as int]);
            lemma_fields_bits_prefix(f@, i + 1);
        }
        n += f[i].1 as usize;
        i += 1;
    }
    assert(f@.take(f@.len() as int) =~= f@);
    n
}

/// Gathers the fields of one part of a frame.
#[derive(Debug, Clone)]
pub struct Dumper {
    pub buf: Vec<BitField>,
}

impl View for Dumper {
    type V = Seq<BitField>;

    open spec fn view(&self) -> Seq<BitField> {
        self.buf@
    }
}

impl Dumper {
    pub fn new() -> (d: Self)
        ensures
            d@ == Seq::<BitField>::empty(),
    {
        Dumper { buf: Vec::new() }
    }

    pub fn insert(&mut self, value: u16, nbits: u8)
        ensures
            final(self)@ == old(self)@.push((value, nbits)),
    {
        self.buf.push((value, nbits));
    }

    /// Adds the fields of `other`.
    pub fn insert_all(&mut self, other: &Vec<BitField>)
        ensures
            final(self)@ == old(self)@ + other@,
    {
        let ghost start = self@;
        let mut i: usize = 0;
        assert(start + other@.take(0) =~= start);
        while i < other.len()
            invariant
                i <= other@.len(),
                self@ == start + other@.take(i as int),
            decreases other@.len() - i,
        {
            self.buf.push(other[i]);
            assert(self@ =~= start + other@.take(i + 1));
            i += 1;
        }
        assert(other@.take(other@.len() as int) =~= other@);
    }

    /// Writes the fields and lets go of them.
    pub fn dump(&mut self, bs: &mut BitStream)
        requires
            fields_wf(old(self)@),
            old(bs).wf(),
            old(bs).bits().len() + fields_bits(old(self)@).len() + 7 <= usize::MAX,
        ensures
            final(bs).wf(),
            final(bs).read_pos() == old(bs).read_pos(),
            final(bs).bits() == old(bs).bits() + fields_bits(old(self)@),
            final(self)@ == Seq::<BitField>::empty(),
    {
        let ghost f = self@;
        let ghost start = bs.bits();
        let mut i: usize = 0;
        assert(f.take(0) =~= Seq::<BitField>::empty());
        assert(start + Seq::<bool>::empty() =~= start);
        while i < self.buf.len()
            invariant
                i <= f.len(),
                self.buf@ == f,
                fields_wf(f),
                bs.wf(),
                bs.read_pos() == old(bs).read_pos(),
                bs.bits() == start + fields_bits(f.take(i as int)),
                start.len() + fields_bits(f).len() + 7 <= usize::MAX,
            decreases f.len() - i,
        {
            proof {
                assert(f.take(i + 1) =~= f.take(i as int).push(f[i as int]));
                lemma_fields_bits_push(f.take(i as int), f[i as int]);
                lemma_fields_bits_prefix(f, i + 1);
            }
            let x: BitField = self.buf[i];
            bs.write(x.0 as u32, x.1 as usize);
            assert(bs.bits() =~= start + fields_bits(f.take(i + 1)));
            i += 1;
        }
        assert(f.take(f.len() as int) =~= f);
        self.buf.clear();
    }

    pub fn reset(&mut self)
        ensures
            final(self)@ == Seq::<BitField>::empty(),
    {
        self.buf.clear();
    }

    pub fn consumption(&self) -> (n: u32)
        requires
            fields_bits(self@).len() <= u32::MAX,
        ensures
            n == fields_bits(self@).len(),
    {
        count_bits(&self.buf) as u32
    }
}

} // verus!
