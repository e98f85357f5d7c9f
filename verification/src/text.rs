//! Text as a sequence of characters.

use vstd::prelude::*;
use crate::util;

verus! {

/// The characters of a text.
pub fn chars_of(s: &str) -> (v: Vec<char>)
    ensures
        v@ == s@,
{
    let n: usize = s.unicode_len();
    let mut v: Vec<char> = Vec::new();
    let mut i: usize = 0;
    while i < n
        invariant
            i <= n,
            n == s@.len(),
            v@ == s@.take(i as int),
        decreases n - i,
    {
        v.push(s.get_char(i));
        i += 1;
        assert(v@ =~= s@.take(i as int));
    }
    assert(s@.take(n as int) =~= s@);
    v
}

/// Whether two texts are the same.
pub fn same_text(a: &[char], b: &str) -> (r: bool)
    ensures
        r == (a@ == b@),
{
    let n: usize = b.unicode_len();
    if a.len() != n {
        return false;
    }
    let mut i: usize = 0;
    while i < n
        invariant
            i <= n,
            n == b@.len(),
            n == a@.len(),
            forall|k: int| 0 <= k < i ==> #[trigger] a@[k] == b@[k],
        decreases n - i,
    {
        if a[i] != b.get_char(i) {
            assert(a@[i as int] != b@[i as int]);
            return false;
        }
        i += 1;
    }
    assert(a@ =~= b@);
    true
}

/// The place of the first `c` at or after `from`; the length of the text where
/// there is none.
pub open spec fn find_from(s: Seq<char>, c: char, from: int) -> int
    decreases s.len() - from,
{
    if from < 0 || from >= s.len() || s[from] == c {
        from
    } else {
        find_from(s, c, from + 1)
    }
}

pub fn find(s: &[char], c: char, from: usize) -> (r: usize)
    requires
        from <= s@.len(),
    ensures
        r == find_from(s@, c, from as int),
        from <= r <= s@.len(),
{
    let mut i: usize = from;
    while i < s.len() && s[i] != c
        invariant
            from <= i <= s@.len(),
            find_from(s@, c, from as int) == find_from(s@, c, i as int),
        decreases s@.len() - i,
    {
        i += 1;
    }
    i
}

pub open spec fn is_digit(c: char) -> bool {
    '0' <= c && c <= '9'
}

pub open spec fn all_digits(s: Seq<char>) -> bool {
    forall|i: int| 0 <= i < s.len() ==> is_digit(#[trigger] s[i])
}

/// The number that decimal digits stand for.
pub open spec fn digits_value(s: Seq<char>) -> nat
    decreases s.len(),
{
    if s.len() == 0 {
        0
    } else {
        (10 * digits_value(s.drop_last()) + (s.last() as int - '0' as int)) as nat
    }
}

/// The digits of a number, after its sign.
pub open spec fn unsigned_part(s: Seq<char>) -> Seq<char> {
    if s.len() > 0 && (s[0] == '+' || s[0] == '-') {
        s.skip(1)
    } else {
        s
    }
}

/// The 32-bit number that a text stands for: an optional sign and at least one
/// decimal digit.
pub open spec fn parsed_i32(s: Seq<char>) -> Option<int> {
    let digits = unsigned_part(s);
    let value = if s.len() > 0 && s[0] == '-' {
        -(digits_value(digits) as int)
    } else {
        digits_value(digits) as int
    };
    if digits.len() == 0 || !all_digits(digits) || !(i32::MIN <= value <= i32::MAX) {
        None
    } else {
        Some(value)
    }
}

proof fn lemma_digits_grow(s: Seq<char>, n: int)
    requires
        0 <= n <= s.len(),
        all_digits(s),
    ensures
        digits_value(s.take(n)) <= digits_value(s),
    decreases s.len() - n,
{
    if n < s.len() {
        lemma_digits_grow(s, n + 1);
        assert(s.take(n + 1).drop_last() =~= s.take(n));
        assert(is_digit(s[n]));
    } else {
        assert(s.take(n) =~= s);
    }
}

/// Reads a 32-bit number.
pub fn parse_i32(s: &[char]) -> (r: Option<i32>)
    ensures
        match r {
            Some(v) => parsed_i32(s@) == Some(v as int),
            None => parsed_i32(s@) is None,
        },
{
    let negative: bool = s.len() > 0 && s[0] == '-';
    let from: usize = if s.len() > 0 && (s[0] == '+' || s[0] == '-') {
        1
    } else {
        0
    };
    let ghost digits = unsigned_part(s@);
    assert(digits =~= s@.skip(from as int));
    if s.len() == from {
        return None;
    }
    let mut value: i64 = 0;
    let mut i: usize = from;
    assert(digits.take(0).len() == 0);
    while i < s.len()
        invariant
            from <= i <= s@.len(),
            digits == s@.skip(from as int),
            all_digits(digits.take(i - from)),
            value == digits_value(digits.take(i - from)),
            0 <= value <= 0x8000_0000,
            parsed_i32(s@) matches Some(v) ==> all_digits(digits) && digits_value(digits)
                <= 0x8000_0000,
        decreases s@.len() - i,
    {
        let c: char = s[i];
        let ghost before = digits.take(i - from);
        let ghost after = digits.take(i - from + 1);
        assert(after.drop_last() =~= before);
        assert(after.last() == c);
        assert(digits[i - from] == c);
        if !(c >= '0' && c <= '9') {
            assert(!is_digit(digits[i - from]));
            return None;
        }
        value = value * 10 + (c as u32 as i64 - 48);
        i += 1;
        proof {
            assert forall|k: int| 0 <= k < after.len() implies is_digit(#[trigger] after[k]) by {
                if k < before.len() {
                    assert(is_digit(before[k]));
                }
            }
        }
        if value > 0x8000_0000 {
            proof {
                if all_digits(digits) {
                    lemma_digits_grow(digits, i - from);
                }
            }
            return None;
        }
    }
    assert(digits.take(s@.len() - from) =~= digits);
    if negative {
        Some((-value) as i32)
    } else if value > 0x7fff_ffff {
        None
    } else {
        Some(value as i32)
    }
}

pub proof fn lemma_decimal_digits(n: nat)
    ensures
        util::decimal_text(n).len() >= 1,
        all_digits(util::decimal_text(n)),
        digits_value(util::decimal_text(n)) == n,
    decreases n,
{
    let s = util::decimal_text(n);
    reveal_with_fuel(digits_value, 2);
    let d = ((n % 10) + 48) as char;
    assert(d as int == n % 10 + 48);
    if n >= 10 {
        lemma_decimal_digits(n / 10);
        let head = util::decimal_text(n / 10);
        assert(s =~= head.push(d));
        assert(s.drop_last() =~= head);
        assert forall|i: int| 0 <= i < s.len() implies is_digit(#[trigger] s[i]) by {
            if i < head.len() {
                assert(is_digit(head[i]));
            }
        }
    } else {
        assert(s =~= seq![d]);
        assert(s.drop_last() =~= Seq::<char>::empty());
    }
}

/// A number in decimal is read as that number, with a plus in front too, and with a minus
/// as its negative; a number that 32 bits cannot hold is not read.
pub proof fn law_decimal_reads_back(n: nat)
    ensures
        n <= i32::MAX ==> parsed_i32(util::decimal_text(n)) == Some(n as int),
        n > i32::MAX ==> parsed_i32(util::decimal_text(n)) is None,
        n <= i32::MAX ==> parsed_i32(seq!['+'] + util::decimal_text(n)) == Some(n as int),
        n <= 0x8000_0000 ==> parsed_i32(seq!['-'] + util::decimal_text(n)) == Some(-(n as int)),
        n > 0x8000_0000 ==> parsed_i32(seq!['-'] + util::decimal_text(n)) is None,
{
    lemma_decimal_digits(n);
    let s = util::decimal_text(n);
    assert(is_digit(s[0]));
    assert(unsigned_part(s) == s);
    assert((seq!['+'] + s).skip(1) =~= s);
    assert((seq!['-'] + s).skip(1) =~= s);
}

/// Nothing is read out of a text with a character that is no digit, but for a sign at its
/// start, nor out of one without digits.
pub proof fn law_no_number(s: Seq<char>, i: int)
    ensures
        0 < i < s.len() && !is_digit(s[i]) ==> parsed_i32(s) is None,
        s.len() > 0 && !is_digit(s[0]) && s[0] != '+' && s[0] != '-' ==> parsed_i32(s) is None,
        s.len() == 0 ==> parsed_i32(s) is None,
        s.len() == 1 && !is_digit(s[0]) ==> parsed_i32(s) is None,
{
    let d = unsigned_part(s);
    if 0 < i < s.len() && !is_digit(s[i]) {
        assert(d == s ==> !is_digit(d[i]));
        assert(d == s.skip(1) ==> d[i - 1] == s[i]);
    }
    if s.len() > 0 && !is_digit(s[0]) && s[0] != '+' && s[0] != '-' {
        assert(!is_digit(d[0]));
    }
}

/// What is found is the first place from `from` on, or the end of the text where there is
/// none.
pub proof fn law_found_is_first(s: Seq<char>, c: char, from: int, i: int)
    requires
        0 <= from <= s.len(),
    ensures
        from <= find_from(s, c, from) <= s.len(),
        find_from(s, c, from) < s.len() ==> s[find_from(s, c, from)] == c,
        from <= i < find_from(s, c, from) ==> s[i] != c,
    decreases s.len() - from,
{
    if from < s.len() && s[from] != c {
        law_found_is_first(s, c, from + 1, i);
    }
}

} // verus!
