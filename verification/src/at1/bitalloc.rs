//! Sharing out the bits of an ATRAC1 frame among its blocks.

use vstd::prelude::*;
use crate::at1::data;
use crate::at1::data::{
    BFU_AMOUNT_TAB, BITS_PER_BFU_AMOUNT_TAB_IDX, BITS_PER_IDSF, BITS_PER_IDWL, MAX_BFUS,
    MAX_BFU_IDX_CONST, SOUND_UNIT_SIZE, SPECS_PER_BLOCK,
};

verus! {

/// The blocks that may take bits that are left over.
pub const BIT_BOOST_MASK: [u32; 52] = [
    0, 0, 0, 0, 0, 0, 0, 0, 0, 0, 0, 0, 0, 0, 0, 0, 0, 0, 1, 1, 1, 1, 1, 0, 0, 0, 0, 0, 0, 0, 0, 0,
    1, 1, 1, 1, 1, 1, 1, 0, 0, 0, 0, 0, 0, 0, 0, 0, 0, 0, 0, 0,
];

/// The longest word of a line.
pub const MAX_WORD_LEN: u32 = 16;

/// Number of lines and number of each boostable block among the first `n`.
pub open spec fn boost_entries(n: nat) -> Seq<(u32, u32)>
    decreases n,
{
    if n == 0 {
        Seq::empty()
    } else if BIT_BOOST_MASK@[n - 1] != 0 {
        boost_entries((n - 1) as nat).push((SPECS_PER_BLOCK@[n - 1], (n - 1) as u32))
    } else {
        boost_entries((n - 1) as nat)
    }
}

/// Ascending by lines, then by block.
pub open spec fn entries_sorted(e: Seq<(u32, u32)>) -> bool {
    forall|i: int, j: int|
        0 <= i < j < e.len() ==> (#[trigger] e[i]).0 <= (#[trigger] e[j]).0 && e[i].1 < e[j].1
}

/// Every entry is a boostable block with its number of lines.
pub open spec fn entries_match(e: Seq<(u32, u32)>) -> bool {
    forall|i: int|
        0 <= i < e.len() ==> (#[trigger] e[i]).1 < MAX_BFUS && e[i].0 == SPECS_PER_BLOCK@[e[i].1 as int]
            && BIT_BOOST_MASK@[e[i].1 as int] != 0
}

proof fn lemma_boost_entries(n: nat)
    requires
        n <= MAX_BFUS,
    ensures
        entries_sorted(boost_entries(n)),
        entries_match(boost_entries(n)),
        forall|i: int|
            0 <= i < boost_entries(n).len() ==> (#[trigger] boost_entries(n)[i]).1 < n,
        n > 18 ==> boost_entries(n).len() > 0 && boost_entries(n)[0] == (6u32, 18u32),
        n > 38 ==> boost_entries(n).last() == (12u32, 38u32),
    decreases n,
{
    if n > 0 {
        lemma_boost_entries((n - 1) as nat);
        let e = boost_entries((n - 1) as nat);
        if BIT_BOOST_MASK@[n - 1] != 0 {
            assert forall|i: int| 0 <= i < e.len() implies (#[trigger] e[i]).0
                <= SPECS_PER_BLOCK@[n - 1] by {
                assert(e[i].1 < n - 1);
                assert(BIT_BOOST_MASK@[e[i].1 as int] != 0);
            }
        }
        if n == 19 {
            lemma_no_entries_before(18);
        }
    }
}

proof fn lemma_no_entries_before(n: nat)
    requires
        n <= 18,
    ensures
        boost_entries(n).len() == 0,
    decreases n,
{
    if n > 0 {
        lemma_no_entries_before((n - 1) as nat);
    }
}

/// The bits per line that a block of `specs` lines with words of `cur` bits gains
/// out of `surplus` bits: words grow by one bit, the first ones come with two.
pub open spec fn boost_gain(cur: u32, specs: int, surplus: int) -> int {
    if cur == MAX_WORD_LEN {
        0
    } else if cur != 0 {
        if specs <= surplus {
            1
        } else {
            0
        }
    } else if 2 * specs <= surplus {
        2
    } else {
        0
    }
}

/// One pass over entries `k..end`, stopping at the first block that the frame
/// does not hold: the words and the surplus after it.
pub open spec fn boost_pass(
    e: Seq<(u32, u32)>,
    k: int,
    end: int,
    words: Seq<u32>,
    surplus: int,
) -> (Seq<u32>, int)
    decreases end - k,
{
    if k >= end || e[k].1 >= words.len() {
        (words, surplus)
    } else {
        let pos = e[k].1 as int;
        let gain = boost_gain(words[pos], e[k].0 as int, surplus);
        boost_pass(
            e,
            k + 1,
            end,
            words.update(pos, (words[pos] + gain) as u32),
            surplus - gain * e[k].0,
        )
    }
}

/// Passes over the first `end` entries until nothing can grow or the surplus is
/// under `min_key`.
pub open spec fn boost_rounds(
    e: Seq<(u32, u32)>,
    end: int,
    min_key: int,
    words: Seq<u32>,
    surplus: int,
) -> (Seq<u32>, int)
    decreases surplus,
{
    let next = boost_pass(e, 0, end, words, surplus);
    if surplus < min_key || !(0 <= next.1 < surplus) {
        (words, surplus)
    } else {
        boost_rounds(e, end, min_key, next.0, next.1)
    }
}

/// How many entries from number `k` on, and before it, are of blocks with at most
/// `key` lines.
pub open spec fn boost_end(e: Seq<(u32, u32)>, key: int, k: int) -> int
    decreases e.len() - k,
{
    if 0 <= k < e.len() && e[k].0 <= key {
        boost_end(e, key, k + 1)
    } else {
        k
    }
}

/// The word lengths and the rest once `surplus` bits are handed out to the blocks
/// with at most that many lines.
pub open spec fn boosted(words: Seq<u32>, surplus: int) -> (Seq<u32>, int) {
    let e = boost_entries(MAX_BFUS as nat);
    boost_rounds(e, boost_end(e, surplus, 0), 6, words, surplus)
}

/// The bits that lines take under word lengths `words`, over the first `n` blocks.
pub open spec fn bits_used(words: Seq<u32>, n: nat) -> int
    decreases n,
{
    if n == 0 {
        0
    } else {
        bits_used(words, (n - 1) as nat) + SPECS_PER_BLOCK@[n - 1] * words[n - 1]
    }
}

proof fn lemma_bits_used_update(words: Seq<u32>, n: nat, pos: int, w: u32)
    requires
        n <= words.len(),
        0 <= pos < words.len(),
    ensures
        bits_used(words.update(pos, w), n) == bits_used(words, n) + (if pos < n {
            SPECS_PER_BLOCK@[pos] * (w - words[pos])
        } else {
            0
        }),
    decreases n,
{
    if n > 0 {
        lemma_bits_used_update(words, (n - 1) as nat, pos, w);
        if pos == n - 1 {
            vstd::arithmetic::mul::lemma_mul_is_distributive_sub(
                SPECS_PER_BLOCK@[pos] as int,
                w as int,
                words[pos] as int,
            );
        }
    }
}

pub proof fn lemma_bits_used_mono(words: Seq<u32>, m: nat, n: nat)
    requires
        m <= n,
    ensures
        0 <= bits_used(words, m) <= bits_used(words, n),
    decreases n,
{
    if n > 0 {
        assert(SPECS_PER_BLOCK@[n - 1] * words[n - 1] >= 0) by (nonlinear_arith);
        if m < n {
            lemma_bits_used_mono(words, m, (n - 1) as nat);
        } else {
            lemma_bits_used_mono(words, (m - 1) as nat, (n - 1) as nat);
        }
    }
}

/// How many of the words belong to blocks of a frame.
pub open spec fn frame_words(words: Seq<u32>) -> nat {
    if words.len() < MAX_BFUS {
        words.len()
    } else {
        MAX_BFUS as nat
    }
}

/// `after` and `left` come from `words` and `surplus` by spending: no word
/// shrinks, those up to the longest stay up to it, none becomes 1, only boostable
/// blocks change, and what the words took is what the surplus lost.
pub open spec fn is_spent(words: Seq<u32>, surplus: int, after: Seq<u32>, left: int) -> bool {
    &&& after.len() == words.len()
    &&& 0 <= left <= surplus
    &&& bits_used(after, frame_words(words)) + left == bits_used(words, frame_words(words))
        + surplus
    &&& forall|i: int|
        0 <= i < words.len() ==> words[i] <= (#[trigger] after[i]) && after[i] + left <= words[i]
            + surplus
    &&& forall|i: int|
        0 <= i < words.len() && words[i] <= MAX_WORD_LEN ==> #[trigger] after[i] <= MAX_WORD_LEN
    &&& forall|i: int| 0 <= i < words.len() && words[i] != 1 ==> #[trigger] after[i] != 1
    &&& forall|i: int|
        0 <= i < words.len() && (i >= MAX_BFUS || BIT_BOOST_MASK@[i] == 0) ==> #[trigger] after[i]
            == words[i]
    &&& left == surplus ==> after == words
}

/// No word can grow out of its type: those up to the longest stop there.
pub open spec fn words_growable(words: Seq<u32>, surplus: int) -> bool {
    forall|i: int|
        0 <= i < words.len() ==> (#[trigger] words[i]) <= MAX_WORD_LEN || words[i] + surplus
            <= u32::MAX
}

proof fn lemma_boost_pass(e: Seq<(u32, u32)>, k: int, end: int, words: Seq<u32>, surplus: int)
    requires
        entries_match(e),
        0 <= k,
        end <= e.len(),
        surplus >= 0,
        words_growable(words, surplus),
    ensures
        is_spent(
            words,
            surplus,
            boost_pass(e, k, end, words, surplus).0,
            boost_pass(e, k, end, words, surplus).1,
        ),
    decreases end - k,
{
    if k < end && e[k].1 < words.len() {
        let pos = e[k].1 as int;
        let specs = e[k].0 as int;
        let gain = boost_gain(words[pos], specs, surplus);
        let w = (words[pos] + gain) as u32;
        let next = words.update(pos, w);
        assert(specs == SPECS_PER_BLOCK@[pos]);
        assert(specs >= 1);
        assert(gain * specs <= surplus && gain <= gain * specs && gain * specs == specs * gain)
            by (nonlinear_arith)
            requires
                gain == 0 || (gain == 1 && specs <= surplus) || (gain == 2 && 2 * specs <= surplus),
                specs >= 1,
                surplus >= 0,
        ;
        lemma_bits_used_update(words, frame_words(words), pos, w);
        assert(words_growable(next, surplus - gain * specs));
        lemma_boost_pass(e, k + 1, end, next, surplus - gain * specs);
        let r = boost_pass(e, k + 1, end, next, surplus - gain * specs);
        if r.1 == surplus {
            assert(gain == 0);
            assert(next =~= words);
        }
        assert forall|i: int| 0 <= i < words.len() implies words[i] <= (#[trigger] r.0[i])
            && r.0[i] + r.1 <= words[i] + surplus by {
            assert(next[i] <= r.0[i]);
        }
    }
}

/// What boosting does: the surplus is spent on boostable blocks, no word outgrows
/// the longest, and at the end a further pass would change nothing or the rest is
/// under the smallest block.
pub proof fn law_boost_spends(
    e: Seq<(u32, u32)>,
    end: int,
    min_key: int,
    words: Seq<u32>,
    surplus: int,
)
    requires
        entries_match(e),
        end <= e.len(),
        surplus >= 0,
        words_growable(words, surplus),
    ensures
        ({
            let (after, left) = boost_rounds(e, end, min_key, words, surplus);
            &&& is_spent(words, surplus, after, left)
            &&& left < min_key || boost_pass(e, 0, end, after, left) == (after, left)
        }),
    decreases surplus,
{
    lemma_boost_pass(e, 0, end, words, surplus);
    let next = boost_pass(e, 0, end, words, surplus);
    if surplus >= min_key && next.1 < surplus {
        assert(words_growable(next.0, next.1));
        law_boost_spends(e, end, min_key, next.0, next.1);
        let r = boost_rounds(e, end, min_key, next.0, next.1);
        assert forall|i: int| 0 <= i < words.len() implies words[i] <= (#[trigger] r.0[i])
            && r.0[i] + r.1 <= words[i] + surplus by {
            assert(next.0[i] <= r.0[i]);
        }
        assert forall|i: int| 0 <= i < words.len() && words[i] <= MAX_WORD_LEN implies #[trigger] r.0[i]
            <= MAX_WORD_LEN by {
            assert(next.0[i] <= MAX_WORD_LEN);
        }
        assert forall|i: int| 0 <= i < words.len() && words[i] != 1 implies #[trigger] r.0[i] != 1 by {
            assert(next.0[i] != 1);
        }
        assert forall|i: int|
            0 <= i < words.len() && (i >= MAX_BFUS || BIT_BOOST_MASK@[i] == 0) implies #[trigger] r.0[i]
            == words[i] by {
            assert(next.0[i] == words[i]);
        }
    }
}

/// A pass that leaves the surplus alone had nothing to give to any of its blocks.
proof fn lemma_idle_pass(
    e: Seq<(u32, u32)>,
    k: int,
    end: int,
    words: Seq<u32>,
    surplus: int,
    j: int,
)
    requires
        entries_match(e),
        entries_sorted(e),
        0 <= k <= j < end <= e.len(),
        e[j].1 < words.len(),
        surplus >= 0,
        words_growable(words, surplus),
        boost_pass(e, k, end, words, surplus).1 == surplus,
    ensures
        boost_gain(words[e[j].1 as int], e[j].0 as int, surplus) == 0,
    decreases end - k,
{
    let pos = e[k].1 as int;
    let specs = e[k].0 as int;
    assert(e[k].1 <= e[j].1);
    let gain = boost_gain(words[pos], specs, surplus);
    let next = words.update(pos, (words[pos] + gain) as u32);
    assert(specs == SPECS_PER_BLOCK@[pos]);
    assert(specs >= 1);
    assert(gain * specs <= surplus && gain <= gain * specs) by (nonlinear_arith)
        requires
            gain == 0 || (gain == 1 && specs <= surplus) || (gain == 2 && 2 * specs <= surplus),
            specs >= 1,
            surplus >= 0,
    ;
    assert(words_growable(next, surplus - gain * specs));
    lemma_boost_pass(e, k + 1, end, next, surplus - gain * specs);
    assert(gain == 0);
    assert(next =~= words);
    assert(gain * specs == 0) by (nonlinear_arith)
        requires
            gain == 0,
    ;
    if k < j {
        lemma_idle_pass(e, k + 1, end, words, surplus, j);
    }
}

/// Every boostable block has an entry.
proof fn lemma_entry_of(n: nat, p: int) -> (k: int)
    requires
        0 <= p < n <= MAX_BFUS,
        BIT_BOOST_MASK@[p] != 0,
    ensures
        0 <= k < boost_entries(n).len(),
        boost_entries(n)[k] == (SPECS_PER_BLOCK@[p], p as u32),
    decreases n,
{
    if p == n - 1 {
        boost_entries((n - 1) as nat).len() as int
    } else {
        lemma_entry_of((n - 1) as nat, p)
    }
}

proof fn lemma_boost_end(e: Seq<(u32, u32)>, key: int, k: int)
    requires
        0 <= k <= e.len(),
        entries_sorted(e),
    ensures
        k <= boost_end(e, key, k) <= e.len(),
        forall|i: int| boost_end(e, key, k) <= i < e.len() ==> (#[trigger] e[i]).0 > key,
    decreases e.len() - k,
{
    if k < e.len() && e[k].0 <= key {
        lemma_boost_end(e, key, k + 1);
    }
}

/// What is left after boosting is too little for a further bit: every boostable block
/// has the longest words, or a step of its words takes more than the rest.
pub proof fn law_boost_exhausts(words: Seq<u32>, surplus: int, p: int)
    requires
        surplus >= 0,
        words_growable(words, surplus),
        0 <= p < words.len(),
        p < MAX_BFUS,
        BIT_BOOST_MASK@[p] != 0,
    ensures
        ({
            let (after, left) = boosted(words, surplus);
            boost_gain(after[p], SPECS_PER_BLOCK@[p] as int, left) == 0
        }),
{
    let e = boost_entries(MAX_BFUS as nat);
    let end = boost_end(e, surplus, 0);
    let (after, left) = boosted(words, surplus);
    lemma_boost_entries(MAX_BFUS as nat);
    lemma_boost_end(e, surplus, 0);
    law_boost_spends(e, end, 6, words, surplus);
    let k = lemma_entry_of(MAX_BFUS as nat, p);
    if left < 6 {
        assert(e[0] == (6u32, 18u32));
        assert(e[0].0 <= e[k].0);
    } else if k < end {
        assert forall|i: int| 0 <= i < after.len() implies (#[trigger] after[i]) <= MAX_WORD_LEN
            || after[i] + left <= u32::MAX by {
            assert(words[i] <= MAX_WORD_LEN || words[i] + surplus <= u32::MAX);
        }
        lemma_idle_pass(e, 0, end, after, left, k);
    }
}

/// Hands bits that are left over to some of the blocks.
#[derive(Debug, Clone)]
pub struct BitsBooster {
    bits_boost_map: Vec<(u32, u32)>,
    max_bits_per_iteration: u32,
    min_key: u32,
}

impl BitsBooster {
    pub closed spec fn wf(&self) -> bool {
        &&& self.bits_boost_map@ == boost_entries(MAX_BFUS as nat)
        &&& self.max_bits_per_iteration == 12
        &&& self.min_key == 6
    }

    pub fn new() -> (b: Self)
        ensures
            b.wf(),
    {
        let mut bits_boost_map: Vec<(u32, u32)> = Vec::new();
        let mut i: usize = 0;
        while i < MAX_BFUS
            invariant
                i <= MAX_BFUS,
                bits_boost_map@ == boost_entries(i as nat),
            decreases MAX_BFUS - i,
        {
            if BIT_BOOST_MASK[i] != 0 {
                bits_boost_map.push((SPECS_PER_BLOCK[i], i as u32));
            }
            i += 1;
        }
        proof {
            lemma_boost_entries(MAX_BFUS as nat);
        }
        let n: usize = bits_boost_map.len();
        let max_bits_per_iteration: u32 = bits_boost_map[n - 1].0;
        let min_key: u32 = bits_boost_map[0].0;
        BitsBooster { bits_boost_map, max_bits_per_iteration, min_key }
    }

    /// Spends what `target` leaves over `cur` and gives back the rest.
    pub fn apply_boost(&self, bits_per_each_block: &mut [u32], cur: u32, target: u32) -> (surplus:
        u32)
        requires
            self.wf(),
            cur <= target,
            words_growable(old(bits_per_each_block)@, target - cur),
        ensures
            (final(bits_per_each_block)@, surplus as int) == boosted(
                old(bits_per_each_block)@,
                target - cur,
            ),
            is_spent(
                old(bits_per_each_block)@,
                target - cur,
                final(bits_per_each_block)@,
                surplus as int,
            ),
    {
        let ghost e = boost_entries(MAX_BFUS as nat);
        let ghost words = bits_per_each_block@;
        let total: u32 = target - cur;
        let mut surplus: u32 = total;
        let key: u32 = if surplus < self.max_bits_per_iteration {
            surplus
        } else {
            self.max_bits_per_iteration
        };
        proof {
            lemma_boost_entries(MAX_BFUS as nat);
        }
        let mut max_pos: usize = 0;
        while max_pos < self.bits_boost_map.len() && self.bits_boost_map[max_pos].0 <= key
            invariant
                e == self.bits_boost_map@,
                max_pos <= e.len(),
                forall|i: int| 0 <= i < max_pos ==> (#[trigger] e[i]).0 <= key,
                key <= total,
                boost_end(e, total as int, 0) == boost_end(e, total as int, max_pos as int),
            decreases e.len() - max_pos,
        {
            max_pos += 1;
        }
        proof {
            assert(e.last() == (12u32, 38u32));
            assert forall|i: int| max_pos <= i < e.len() implies (#[trigger] e[i]).0 > total by {
                assert(e[max_pos as int].0 > key);
                assert(e[i].0 <= e.last().0);
                assert(e[max_pos as int].0 <= e[i].0);
            }
            assert(boost_end(e, total as int, max_pos as int) == max_pos);
            law_boost_spends(e, max_pos as int, 6, words, total as int);
        }
        let ghost goal = boost_rounds(e, max_pos as int, 6, words, total as int);
        if max_pos == 0 {
            assert(boost_pass(e, 0, 0, words, total as int) == (words, total as int));
            return surplus;
        }
        let mut going: bool = surplus >= self.min_key;
        while going
            invariant
                self.wf(),
                e == self.bits_boost_map@,
                entries_match(e),
                max_pos <= e.len(),
                bits_per_each_block@.len() == words.len(),
                words_growable(bits_per_each_block@, surplus as int),
                going ==> surplus >= 6 && goal == boost_rounds(
                    e,
                    max_pos as int,
                    6,
                    bits_per_each_block@,
                    surplus as int,
                ),
                !going ==> goal == (bits_per_each_block@, surplus as int),
            decreases (if going {
                surplus + 1
            } else {
                0
            }),
        {
            let ghost before = bits_per_each_block@;
            let start: u32 = surplus;
            proof {
                lemma_boost_pass(e, 0, max_pos as int, before, start as int);
            }
            let ghost after = boost_pass(e, 0, max_pos as int, before, start as int);
            let mut k: usize = 0;
            let mut stop: bool = false;
            while k < max_pos && !stop
                invariant
                    e == self.bits_boost_map@,
                    entries_match(e),
                    k <= max_pos <= e.len(),
                    bits_per_each_block@.len() == words.len(),
                    words_growable(bits_per_each_block@, surplus as int),
                    surplus <= start,
                    if stop {
                        after == (bits_per_each_block@, surplus as int)
                    } else {
                        after == boost_pass(
                            e,
                            k as int,
                            max_pos as int,
                            bits_per_each_block@,
                            surplus as int,
                        )
                    },
                decreases max_pos - k + (if stop {
                    0int
                } else {
                    1int
                }),
            {
                let (cur_bits, cur_pos): (u32, u32) = self.bits_boost_map[k];
                let pos: usize = cur_pos as usize;
                if pos >= bits_per_each_block.len() {
                    stop = true;
                } else {
                    let word: u32 = bits_per_each_block[pos];
                    let n_bits_per_spec: u32 = if word != 0 {
                        1
                    } else {
                        2
                    };
                    let ghost w0 = bits_per_each_block@;
                    let ghost gain = boost_gain(word, cur_bits as int, surplus as int);
                    let ghost s0 = surplus as int;
                    assert(cur_bits <= 20);
                    assert(after == boost_pass(
                        e,
                        k + 1,
                        max_pos as int,
                        w0.update(pos as int, (word + gain) as u32),
                        s0 - gain * cur_bits,
                    ));
                    if word != 16 && cur_bits * n_bits_per_spec <= surplus {
                        bits_per_each_block[pos] = word + n_bits_per_spec;
                        surplus -= cur_bits * n_bits_per_spec;
                        assert(n_bits_per_spec * cur_bits == cur_bits * n_bits_per_spec)
                            by (nonlinear_arith);
                    } else {
                        assert(w0.update(pos as int, word) =~= w0);
                    }
                    k += 1;
                }
            }
            going = surplus < start && surplus >= self.min_key;
            assert(goal == (if surplus < start {
                boost_rounds(e, max_pos as int, 6, after.0, after.1)
            } else {
                (before, start as int)
            }));
        }
        surplus
    }
}

impl Default for BitsBooster {
    fn default() -> (b: Self)
        ensures
            b.wf(),
    {
        Self::new()
    }
}

/// The bits that the lines of all blocks take.
pub fn calc_bits_used(bits_per_each_block: &[u32]) -> (r: u32)
    requires
        bits_per_each_block@.len() <= MAX_BFUS,
        bits_used(bits_per_each_block@, bits_per_each_block@.len()) <= u32::MAX,
    ensures
        r == bits_used(bits_per_each_block@, bits_per_each_block@.len()),
{
    let mut sum: u32 = 0;
    let mut i: usize = 0;
    while i < bits_per_each_block.len()
        invariant
            i <= bits_per_each_block@.len() <= MAX_BFUS,
            sum == bits_used(bits_per_each_block@, i as nat),
            bits_used(bits_per_each_block@, bits_per_each_block@.len()) <= u32::MAX,
        decreases bits_per_each_block@.len() - i,
    {
        proof {
            lemma_bits_used_mono(bits_per_each_block@, i as nat, (i + 1) as nat);
            lemma_bits_used_mono(
                bits_per_each_block@,
                (i + 1) as nat,
                bits_per_each_block@.len(),
            );
        }
        sum += SPECS_PER_BLOCK[i] * bits_per_each_block[i];
        i += 1;
    }
    sum
}

/// The largest number of blocks in the table that `len` reaches.
pub open spec fn is_amount_idx(len: nat, idx: int) -> bool {
    &&& 0 <= idx < 8
    &&& BFU_AMOUNT_TAB@[idx] <= len
    &&& idx < 7 ==> BFU_AMOUNT_TAB@[idx + 1] > len
}

/// The blocks `from..to` have no bits.
pub open spec fn all_silent(words: Seq<u32>, from: int, to: int) -> bool {
    forall|j: int| from <= j < to ==> #[trigger] words[j] == 0
}

/// `r` is the smallest index into the table of block numbers, out of those that
/// the allocation reaches, that keeps every block with bits.
pub open spec fn is_max_used_bfu_id(words: Seq<u32>, r: int) -> bool {
    exists|top: int|
        #![trigger is_amount_idx(words.len(), top)]
        {
            &&& is_amount_idx(words.len(), top)
            &&& 0 <= r <= top
            &&& all_silent(words, BFU_AMOUNT_TAB@[r] as int, BFU_AMOUNT_TAB@[top] as int)
            &&& r > 0 ==> !all_silent(
                words,
                BFU_AMOUNT_TAB@[r - 1] as int,
                BFU_AMOUNT_TAB@[r] as int,
            )
        }
}

/// The index of the number of blocks that holds all the blocks with bits.
pub fn get_max_used_bfu_id(bits_per_each_block: &[u32]) -> (r: u32)
    requires
        bits_per_each_block@.len() >= BFU_AMOUNT_TAB@[0],
    ensures
        is_max_used_bfu_id(bits_per_each_block@, r as int),
        r < 8,
{
    let ghost words = bits_per_each_block@;
    let mut idx: usize = 7;
    while BFU_AMOUNT_TAB[idx] as usize > bits_per_each_block.len()
        invariant
            idx < 8,
            words == bits_per_each_block@,
            words.len() >= BFU_AMOUNT_TAB@[0],
            idx < 7 ==> BFU_AMOUNT_TAB@[idx + 1] > words.len(),
        decreases idx,
    {
        idx -= 1;
    }
    let ghost top = idx as int;
    let mut bfu_num: usize = BFU_AMOUNT_TAB[idx] as usize;
    let mut i: usize = 0;
    while idx != 0 && bits_per_each_block[bfu_num - 1 - i] == 0
        invariant
            words == bits_per_each_block@,
            idx <= top < 8,
            is_amount_idx(words.len(), top),
            bfu_num == BFU_AMOUNT_TAB@[idx as int],
            bfu_num <= words.len(),
            idx == 0 ==> i == 0,
            idx > 0 ==> i < BFU_AMOUNT_TAB@[idx as int] - BFU_AMOUNT_TAB@[idx - 1],
            all_silent(words, bfu_num - i, BFU_AMOUNT_TAB@[top] as int),
        decreases bfu_num - i,
    {
        i += 1;
        if i >= (BFU_AMOUNT_TAB[idx] - BFU_AMOUNT_TAB[idx - 1]) as usize {
            idx -= 1;
            bfu_num -= i;
            i = 0;
        }
    }
    proof {
        if idx > 0 {
            assert(words[bfu_num - 1 - i] != 0);
        }
        assert(is_amount_idx(words.len(), top));
    }
    idx as u32
}

/// The bits that the lines of a frame with `bfu_num` blocks can take.
pub fn calc_available_bits_for_bfus(bfu_num: usize) -> (r: u32)
    requires
        10 * bfu_num <= 1656,
    ensures
        r == 1656 - 10 * bfu_num,
{
    let per_block: u32 = BITS_PER_IDWL + BITS_PER_IDSF;
    assert(bfu_num * per_block == 10 * bfu_num) by (nonlinear_arith)
        requires
            per_block == 10,
    ;
    SOUND_UNIT_SIZE * 8 - BITS_PER_BFU_AMOUNT_TAB_IDX - 32 - 2 - 3 - bfu_num as u32 * per_block
}

/// The word length that a level stands for: none under 2, never over the longest.
/// A block without a level is inaudible.
pub open spec fn settled_word(level: Option<i32>) -> u32 {
    match level {
        Some(l) => if l > MAX_WORD_LEN {
            MAX_WORD_LEN
        } else if l < 2 {
            0
        } else {
            l as u32
        },
        None => 0,
    }
}

/// Word lengths that a frame can hold.
pub open spec fn words_wf(words: Seq<u32>) -> bool {
    forall|i: int|
        0 <= i < words.len() ==> (#[trigger] words[i]) <= MAX_WORD_LEN && words[i] != 1
}

/// Word lengths out of levels.
pub fn calc_bits_allocation(levels: &[Option<i32>]) -> (r: Vec<u32>)
    ensures
        r@ == levels@.map_values(|l: Option<i32>| settled_word(l)),
        words_wf(r@),
        forall|i: int|
            0 <= i < levels@.len() ==> ((#[trigger] levels@[i]) matches Some(l) ==> {
                &&& 2 <= l <= 16 ==> r@[i] == l
                &&& l < 2 ==> r@[i] == 0
                &&& l > 16 ==> r@[i] == 16
            }),
        forall|i: int|
            0 <= i < levels@.len() && (#[trigger] levels@[i]) is None ==> r@[i] == 0,
{
    let mut r: Vec<u32> = Vec::new();
    let mut i: usize = 0;
    while i < levels.len()
        invariant
            i <= levels@.len(),
            r@ == levels@.take(i as int).map_values(|l: Option<i32>| settled_word(l)),
        decreases levels@.len() - i,
    {
        let word: u32 = match levels[i] {
            Some(l) => if l > 16 {
                16
            } else if l < 2 {
                0
            } else {
                l as u32
            },
            None => 0,
        };
        r.push(word);
        i += 1;
        assert(r@ =~= levels@.take(i as int).map_values(|l: Option<i32>| settled_word(l)));
    }
    assert(levels@.take(levels@.len() as int) =~= levels@);
    r
}

/// Settling changes no level that is itself a word length, so that words settle to
/// themselves, and it clips the others to the nearest end: a higher level never stands
/// for a shorter word.
pub proof fn law_levels_are_words(l: i32, m: i32)
    ensures
        2 <= l <= 16 ==> settled_word(Some(l)) == l,
        l < 2 ==> settled_word(Some(l)) == 0,
        l > 16 ==> settled_word(Some(l)) == 16,
        l <= m ==> settled_word(Some(l)) <= settled_word(Some(m)),
        2 <= l < m <= 16 ==> settled_word(Some(l)) < settled_word(Some(m)),
        settled_word(Some(settled_word(Some(l)) as i32)) == settled_word(Some(l)),
        settled_word(None) == 0,
{
}

/// What a proposed allocation asks of the next proposal.
#[derive(Debug, Clone, Copy, Eq, PartialEq, Structural)]
pub enum SearchStep {
    /// Bits are left: spend more.
    Loosen,
    /// The frame overflows: spend less.
    Tighten,
    /// This is the allocation.
    Accept,
}

/// How a round of proposals ends.
#[derive(Debug, Clone, Eq, PartialEq)]
pub enum RoundEnd {
    /// The last blocks are silent: go on with the smaller number of blocks that
    /// this index stands for.
    Again(u32),
    /// The word lengths of the frame.
    Done(Vec<u32>),
}

/// Chooses the number of blocks and the word lengths of a frame out of proposals.
#[derive(Debug, Clone)]
pub struct Atrac1BitAllocator {
    booster: BitsBooster,
    bfu_idx_const: u32,
}

impl Atrac1BitAllocator {
    pub closed spec fn wf(&self) -> bool {
        &&& self.booster.wf()
        &&& self.bfu_idx_const <= MAX_BFU_IDX_CONST
    }

    pub closed spec fn spec_bfu_idx_const(&self) -> u32 {
        self.bfu_idx_const
    }

    pub fn new(bfu_idx_const: u32) -> (a: Self)
        requires
            bfu_idx_const <= MAX_BFU_IDX_CONST,
        ensures
            a.wf(),
            a.spec_bfu_idx_const() == bfu_idx_const,
    {
        Atrac1BitAllocator { booster: BitsBooster::new(), bfu_idx_const }
    }

    /// The index of the number of blocks to begin with: the fixed one, or the
    /// largest.
    pub fn first_bfu_idx(&self) -> (idx: u32)
        requires
            self.wf(),
        ensures
            idx < 8,
            idx == (if self.spec_bfu_idx_const() != 0 {
                self.spec_bfu_idx_const() - 1
            } else {
                7
            }),
    {
        if self.bfu_idx_const != 0 {
            self.bfu_idx_const - 1
        } else {
            7
        }
    }

    /// Weighs a proposal against the bits of the frame. The last proposal of a
    /// round is accepted as it is.
    pub fn judge(&self, bits_per_each_block: &[u32], last: bool) -> (step: SearchStep)
        requires
            bits_per_each_block@.len() <= MAX_BFUS,
            bits_used(bits_per_each_block@, bits_per_each_block@.len()) <= u32::MAX,
        ensures
            step == ({
                let used = bits_used(bits_per_each_block@, bits_per_each_block@.len());
                let target = 1656 - 10 * bits_per_each_block@.len();
                if last || used == target {
                    SearchStep::Accept
                } else if used < target {
                    SearchStep::Loosen
                } else {
                    SearchStep::Tighten
                }
            }),
    {
        let used: u32 = calc_bits_used(bits_per_each_block);
        let target: u32 = calc_available_bits_for_bfus(bits_per_each_block.len());
        if last {
            SearchStep::Accept
        } else if used < target {
            SearchStep::Loosen
        } else if used > target {
            SearchStep::Tighten
        } else {
            SearchStep::Accept
        }
    }

    /// The round ends with the allocation of the frame.
    pub open spec fn is_final(&self, bfu_idx: u32, words: Seq<u32>) -> bool {
        self.spec_bfu_idx_const() != 0 || is_max_used_bfu_id(words, bfu_idx as int)
    }

    /// Ends a round with the allocation that it came to, which must fit into the
    /// frame where it is the final one.
    pub fn end_round(&self, bfu_idx: u32, bits_per_each_block: Vec<u32>) -> (end: RoundEnd)
        requires
            self.wf(),
            bfu_idx < 8,
            bits_per_each_block@.len() == BFU_AMOUNT_TAB@[bfu_idx as int],
            words_wf(bits_per_each_block@),
            self.is_final(bfu_idx, bits_per_each_block@) ==> bits_used(
                bits_per_each_block@,
                bits_per_each_block@.len(),
            ) <= 1656 - 10 * bits_per_each_block@.len(),
        ensures
            match end {
                RoundEnd::Again(idx) => {
                    &&& self.spec_bfu_idx_const() == 0
                    &&& idx == bfu_idx - 1
                    &&& exists|r: int|
                        is_max_used_bfu_id(bits_per_each_block@, r) && 0 <= r < bfu_idx
                },
                RoundEnd::Done(words) => {
                    &&& self.is_final(bfu_idx, bits_per_each_block@)
                    &&& words@ == boosted(
                        bits_per_each_block@,
                        1656 - 10 * bits_per_each_block@.len() - bits_used(
                            bits_per_each_block@,
                            bits_per_each_block@.len(),
                        ),
                    ).0
                    &&& words@.len() == bits_per_each_block@.len()
                    &&& words_wf(words@)
                    &&& bits_used(words@, words@.len()) <= 1656 - 10 * words@.len()
                },
            },
    {
        if self.bfu_idx_const == 0 {
            let used_bfu_id: u32 = get_max_used_bfu_id(bits_per_each_block.as_slice());
            proof {
                assert(is_amount_idx(bits_per_each_block@.len(), bfu_idx as int));
            }
            if used_bfu_id < bfu_idx {
                return RoundEnd::Again(bfu_idx - 1);
            }
        }
        let ghost before = bits_per_each_block@;
        let mut words: Vec<u32> = bits_per_each_block;
        proof {
            lemma_bits_used_mono(before, 0, before.len());
        }
        let used: u32 = calc_bits_used(words.as_slice());
        let target: u32 = calc_available_bits_for_bfus(words.len());
        let _ = self.booster.apply_boost(words.as_mut_slice(), used, target);
        proof {
            assert forall|i: int| 0 <= i < words@.len() implies (#[trigger] words@[i])
                <= MAX_WORD_LEN && words@[i] != 1 by {
                assert(before[i] <= MAX_WORD_LEN);
            }
        }
        RoundEnd::Done(words)
    }
}

/// Bits that are left over go to the blocks 18 to 22 and 32 to 38 and to no others.
pub proof fn law_boost_blocks(i: int)
    requires
        0 <= i < MAX_BFUS,
    ensures
        BIT_BOOST_MASK@[i] != 0 <==> 18 <= i <= 22 || 32 <= i <= 38,
{
}

} // verus!
