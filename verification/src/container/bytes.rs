//! Numbers as bytes.

use vstd::prelude::*;

verus! {

/// The two bytes of a number, the least significant first.
pub open spec fn le16(x: u16) -> Seq<u8> {
    seq![(x % 256) as u8, (x / 256) as u8]
}

/// The four bytes of a number, the least significant first.
pub open spec fn le32(x: u32) -> Seq<u8> {
    seq![
        (x % 256) as u8,
        (x / 256 % 256) as u8,
        (x / 65536 % 256) as u8,
        (x / 16777216) as u8,
    ]
}

/// The two bytes of a number, the most significant first.
pub open spec fn be16(x: u16) -> Seq<u8> {
    seq![(x / 256) as u8, (x % 256) as u8]
}

/// The four bytes of a number, the most significant first.
pub open spec fn be32(x: u32) -> Seq<u8> {
    seq![
        (x / 16777216) as u8,
        (x / 65536 % 256) as u8,
        (x / 256 % 256) as u8,
        (x % 256) as u8,
    ]
}

/// The number that two bytes from `at` on stand for, the least significant first.
pub open spec fn le16_at(s: Seq<u8>, at: int) -> int {
    s[at] + 256 * s[at + 1]
}

/// The number that four bytes from `at` on stand for, the least significant first.
pub open spec fn le32_at(s: Seq<u8>, at: int) -> int {
    s[at] + 256 * s[at + 1] + 65536 * s[at + 2] + 16777216 * s[at + 3]
}

/// The number that two bytes from `at` on stand for, the most significant first.
#[verifier::opaque]
pub open spec fn be16_at(s: Seq<u8>, at: int) -> int {
    256 * s[at] + s[at + 1]
}

/// The number that four bytes from `at` on stand for, the most significant first.
#[verifier::opaque]
pub open spec fn be32_at(s: Seq<u8>, at: int) -> int {
    16777216 * s[at] + 65536 * s[at + 1] + 256 * s[at + 2] + s[at + 3]
}

/// A number is read back from where it was put, whatever stands before and behind it.
pub proof fn law_numbers_read_back(before: Seq<u8>, x: u32, y: u16, behind: Seq<u8>)
    ensures
        le32_at(before + le32(x) + behind, before.len() as int) == x,
        be32_at(before + be32(x) + behind, before.len() as int) == x,
        le16_at(before + le16(y) + behind, before.len() as int) == y,
        be16_at(before + be16(y) + behind, before.len() as int) == y,
{
    reveal(be16_at);
    reveal(be32_at);
}

/// The number can be told from its bytes.
pub proof fn law_bytes_tell_number(x: u32)
    ensures
        le32(x)[0] + 256 * le32(x)[1] + 65536 * le32(x)[2] + 16777216 * le32(x)[3] == x,
        be32(x) == le32(x).reverse(),
{
    assert(be32(x) =~= le32(x).reverse());
}

pub fn push_u16_le(buf: &mut Vec<u8>, x: u16)
    ensures
        final(buf)@ == old(buf)@ + le16(x),
{
    buf.push((x % 256) as u8);
    buf.push((x / 256) as u8);
    assert(buf@ =~= old(buf)@ + le16(x));
}

pub fn push_u32_le(buf: &mut Vec<u8>, x: u32)
    ensures
        final(buf)@ == old(buf)@ + le32(x),
{
    buf.push((x % 256) as u8);
    buf.push((x / 256 % 256) as u8);
    buf.push((x / 65536 % 256) as u8);
    buf.push((x / 16777216) as u8);
    assert(buf@ =~= old(buf)@ + le32(x));
}

pub fn push_u16_be(buf: &mut Vec<u8>, x: u16)
    ensures
        final(buf)@ == old(buf)@ + be16(x),
{
    buf.push((x / 256) as u8);
    buf.push((x % 256) as u8);
    assert(buf@ =~= old(buf)@ + be16(x));
}

pub fn push_u32_be(buf: &mut Vec<u8>, x: u32)
    ensures
        final(buf)@ == old(buf)@ + be32(x),
{
    buf.push((x / 16777216) as u8);
    buf.push((x / 65536 % 256) as u8);
    buf.push((x / 256 % 256) as u8);
    buf.push((x % 256) as u8);
    assert(buf@ =~= old(buf)@ + be32(x));
}

/// Appends bytes.
pub fn push_bytes(buf: &mut Vec<u8>, data: &[u8])
    ensures
        final(buf)@ == old(buf)@ + data@,
{
    let mut copy: Vec<u8> = vstd::slice::slice_to_vec(data);
    buf.append(&mut copy);
}

/// `bytes` with `part` written over it from `at` on.
pub open spec fn patched(bytes: Seq<u8>, at: int, part: Seq<u8>) -> Seq<u8> {
    Seq::new(
        bytes.len(),
        |i: int|
            if at <= i < at + part.len() {
                part[i - at]
            } else {
                bytes[i]
            },
    )
}

/// Writes bytes over those from `at` on.
pub fn patch(buf: &mut Vec<u8>, at: usize, part: &[u8])
    requires
        at + part@.len() <= old(buf)@.len(),
    ensures
        final(buf)@ == patched(old(buf)@, at as int, part@),
{
    let mut i: usize = 0;
    while i < part.len()
        invariant
            i <= part@.len(),
            at + part@.len() <= buf@.len(),
            buf@.len() == old(buf)@.len(),
            forall|j: int|
                0 <= j < buf@.len() ==> #[trigger] buf@[j] == (if at <= j < at + i {
                    part@[j - at]
                } else {
                    old(buf)@[j]
                }),
        decreases part@.len() - i,
    {
        assert(buf@.len() == buf.len());
        buf[at + i] = part[i];
        i += 1;
    }
    assert(buf@ =~= patched(old(buf)@, at as int, part@));
}

/// Calls `u32::to_ne_bytes`: the four bytes of the number in the order in which
/// the machine keeps them, the least or the most significant first. Which of the
/// two it is depends on the machine.
#[verifier::external_body]
pub(crate) fn u32_ne_bytes(x: u32) -> (r: [u8; 4])
    ensures
        r@ == le32(x) || r@ == be32(x),
{
    x.to_ne_bytes()
}

/// Calls `std::str::from_utf8`: the text whose UTF-8 encoding the bytes are, or
/// nothing where they are no such encoding.
#[verifier::external_body]
pub(crate) fn utf8_text(bytes: &[u8]) -> (r: Option<&str>)
    ensures
        match r {
            Some(s) => vstd::utf8::encode_utf8(s@) == bytes@,
            None => !vstd::utf8::valid_utf8(bytes@),
        },
{
    std::str::from_utf8(bytes).ok()
}

/// What stays readable when bytes are appended.
pub open spec fn extends(s: Seq<u8>, a: Seq<u8>) -> bool {
    &&& a.len() <= s.len()
    &&& forall|at: int|
        0 <= at && at + 2 <= a.len() ==> #[trigger] be16_at(s, at) == be16_at(a, at)
    &&& forall|at: int|
        0 <= at && at + 4 <= a.len() ==> #[trigger] be32_at(s, at) == be32_at(a, at)
    &&& forall|at: int, end: int|
        0 <= at <= end <= a.len() ==> #[trigger] s.subrange(at, end) == a.subrange(at, end)
}

pub proof fn lemma_put(a: Seq<u8>, t: Seq<u8>)
    ensures
        extends(a + t, a),
        (a + t).len() == a.len() + t.len(),
        (a + t).subrange(a.len() as int, (a.len() + t.len()) as int) == t,
{
    reveal(be16_at);
    reveal(be32_at);
    let s = a + t;
    assert(s.subrange(a.len() as int, (a.len() + t.len()) as int) =~= t);
    assert forall|at: int, end: int| 0 <= at <= end <= a.len() implies #[trigger] s.subrange(at, end)
        == a.subrange(at, end) by {
        assert(s.subrange(at, end) =~= a.subrange(at, end));
    }
}

pub proof fn lemma_put_be16(a: Seq<u8>, x: u16)
    ensures
        extends(a + be16(x), a),
        (a + be16(x)).len() == a.len() + 2,
        be16_at(a + be16(x), a.len() as int) == x,
{
    lemma_put(a, be16(x));
    law_numbers_read_back(a, 0, x, Seq::empty());
    assert(a + be16(x) + Seq::<u8>::empty() =~= a + be16(x));
}

pub proof fn lemma_put_be32(a: Seq<u8>, x: u32)
    ensures
        extends(a + be32(x), a),
        (a + be32(x)).len() == a.len() + 4,
        be32_at(a + be32(x), a.len() as int) == x,
{
    lemma_put(a, be32(x));
    law_numbers_read_back(a, x, 0, Seq::empty());
    assert(a + be32(x) + Seq::<u8>::empty() =~= a + be32(x));
}

/// Bytes are read where they stand behind others.
pub proof fn lemma_behind(a: Seq<u8>, f: Seq<u8>)
    ensures
        forall|at: int|
            a.len() <= at && at + 2 <= a.len() + f.len() ==> #[trigger] be16_at(a + f, at) == be16_at(
                f,
                at - a.len(),
            ),
        forall|at: int|
            a.len() <= at && at + 4 <= a.len() + f.len() ==> #[trigger] be32_at(a + f, at) == be32_at(
                f,
                at - a.len(),
            ),
        forall|at: int, end: int|
            a.len() <= at <= end <= a.len() + f.len() ==> #[trigger] (a + f).subrange(at, end)
                == f.subrange(at - a.len(), end - a.len()),
{
    reveal(be16_at);
    reveal(be32_at);
    assert forall|at: int, end: int| a.len() <= at <= end <= a.len() + f.len() implies #[trigger] (a
        + f).subrange(at, end) == f.subrange(at - a.len(), end - a.len()) by {
        assert((a + f).subrange(at, end) =~= f.subrange(at - a.len(), end - a.len()));
    }
}

} // verus!
