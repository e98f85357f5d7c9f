//! Small helpers.

use vstd::prelude::*;
use vstd::arithmetic::power2::*;
use crate::dsp::order;

verus! {

/// Reverses a slice in place.
pub fn swap_array<T>(s: &mut [T])
    ensures
        final(s)@ == old(s)@.reverse(),
{
    let n: usize = s.len();
    let mut i: usize = 0;
    while i < n / 2
        invariant
            i <= n / 2,
            n == old(s)@.len(),
            s@.len() == n,
            forall|j: int|
                0 <= j < n ==> #[trigger] s@[j] == (if j < i || j >= n - i {
                    old(s)@[n - 1 - j]
                } else {
                    old(s)@[j]
                }),
        decreases n / 2 - i,
    {
        let (head, tail): (&mut [T], &mut [T]) = s.split_at_mut(n - 1 - i);
        core::mem::swap(&mut head[i], &mut tail[0]);
        i += 1;
    }
    assert(s@ =~= old(s)@.reverse());
}

/// The place of the highest set bit; 0 for 0.
pub open spec fn highest_bit(x: nat) -> nat
    decreases x,
{
    if x <= 1 {
        0
    } else {
        1 + highest_bit(x / 2)
    }
}

pub proof fn lemma_highest_bit(x: nat)
    requires
        x > 0,
    ensures
        pow2(highest_bit(x)) <= x < pow2(highest_bit(x) + 1),
    decreases x,
{
    lemma2_to64();
    if x > 1 {
        lemma_highest_bit(x / 2);
        lemma_pow2_unfold(highest_bit(x));
        lemma_pow2_unfold(highest_bit(x) + 1);
    }
}

/// The place of the highest set bit; 0 for 0.
pub fn get_first_set_bit(x: u32) -> (r: u16)
    ensures
        r == highest_bit(x as nat),
        r < 32,
{
    let mut rest: u32 = x;
    let mut r: u16 = 0;
    proof {
        lemma2_to64();
        if x > 0 {
            lemma_highest_bit(x as nat);
            if highest_bit(x as nat) >= 32 {
                if highest_bit(x as nat) > 32 {
                    lemma_pow2_strictly_increases(32, highest_bit(x as nat));
                }
            }
        }
    }
    while rest > 1
        invariant
            r + highest_bit(rest as nat) == highest_bit(x as nat),
            highest_bit(x as nat) < 32,
        decreases rest,
    {
        rest = rest / 2;
        r += 1;
    }
    r
}

/// The number of bytes that hold `x` bits.
pub fn div8_ceil(x: u32) -> (r: u32)
    requires
        x > 0,
    ensures
        r == (x + 7) / 8,
{
    1 + (x - 1) / 8
}

/// The median of keys: of an even number of them the smaller one of the middle two.
pub fn calc_median(keys: &[i32]) -> (r: i32)
    requires
        keys@.len() > 0,
    ensures
        r == order::ordered(keys@)[(keys@.len() - 1) / 2],
{
    let sorted: Vec<i32> = order::sort_keys(keys);
    sorted[(sorted.len() - 1) / 2]
}

/// One decimal digit.
pub open spec fn digit_text(d: nat) -> Seq<char> {
    seq![(d + 48) as char]
}

/// A number in decimal.
pub open spec fn decimal_text(n: nat) -> Seq<char>
    decreases n,
{
    if n < 10 {
        digit_text(n)
    } else {
        decimal_text(n / 10) + digit_text(n % 10)
    }
}

fn digit(d: u32) -> (s: &'static str)
    requires
        d < 10,
    ensures
        s@ == digit_text(d as nat),
{
    proof {
        reveal_strlit("0");
        reveal_strlit("1");
        reveal_strlit("2");
        reveal_strlit("3");
        reveal_strlit("4");
        reveal_strlit("5");
        reveal_strlit("6");
        reveal_strlit("7");
        reveal_strlit("8");
        reveal_strlit("9");
    }
    let s: &'static str = match d {
        0 => "0",
        1 => "1",
        2 => "2",
        3 => "3",
        4 => "4",
        5 => "5",
        6 => "6",
        7 => "7",
        8 => "8",
        _ => "9",
    };
    assert(s@ =~= digit_text(d as nat));
    s
}

/// Writes a number in decimal.
pub fn decimal(n: u32) -> (s: String)
    ensures
        s@ == decimal_text(n as nat),
    decreases n,
{
    if n < 10 {
        digit(n).to_owned()
    } else {
        let head: String = decimal(n / 10);
        head.concat(digit(n % 10))
    }
}

/// The highest set bit of a number is the one whose power of two the number reaches but
/// does not double; 0 and 1 have it at 0.
pub proof fn law_highest_bit(x: nat, b: nat)
    ensures
        highest_bit(0) == 0,
        x > 0 ==> (highest_bit(x) == b <==> pow2(b) <= x < pow2(b + 1)),
{
    if x > 0 {
        lemma_highest_bit(x);
        let h = highest_bit(x);
        if h < b {
            if h + 1 < b {
                lemma_pow2_strictly_increases(h + 1, b);
            }
        } else if b < h {
            if b + 1 < h {
                lemma_pow2_strictly_increases(b + 1, h);
            }
        }
    }
}

} // verus!
