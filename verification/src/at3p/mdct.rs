//! Window shapes of the ATRAC3plus transform.

use vstd::prelude::*;

verus! {

/// Which of the 16 subbands use the steep window.
#[derive(Debug, Clone, Copy, PartialEq, Eq, Structural)]
pub struct At3pMdctWin {
    flags: u16,
}

impl At3pMdctWin {
    /// Subband `sb` uses the steep window.
    pub closed spec fn steep(&self, sb: int) -> bool {
        (self.flags >> (sb as u16)) & 1u16 == 1u16
    }

    /// No subband uses the steep window.
    pub open spec fn all_sine(&self) -> bool {
        forall|sb: int| 0 <= sb < 16 ==> !#[trigger] self.steep(sb)
    }

    pub fn new() -> (w: Self)
        ensures
            w.all_sine(),
    {
        let w = At3pMdctWin { flags: 0 };
        assert forall|sb: int| 0 <= sb < 16 implies !#[trigger] w.steep(sb) by {
            let s: u16 = sb as u16;
            assert((0u16 >> s) & 1u16 == 0u16) by (bit_vector);
        }
        w
    }

    /// Every subband steep.
    pub fn all_steep_win() -> (w: Self)
        ensures
            forall|sb: int| 0 <= sb < 16 ==> #[trigger] w.steep(sb),
    {
        let w = At3pMdctWin { flags: u16::MAX };
        assert forall|sb: int| 0 <= sb < 16 implies #[trigger] w.steep(sb) by {
            let s: u16 = sb as u16;
            assert(s < 16 ==> (0xFFFFu16 >> s) & 1u16 == 1u16) by (bit_vector);
        }
        w
    }

    pub fn set_steep_win(&mut self, sb: usize)
        requires
            sb < 16,
        ensures
            forall|i: int|
                0 <= i < 16 ==> #[trigger] final(self).steep(i) == (i == sb || old(self).steep(i)),
    {
        let f: u16 = self.flags;
        self.flags = f | (1u16 << sb);
        assert forall|i: int| 0 <= i < 16 implies #[trigger] self.steep(i) == (i == sb || old(
            self,
        ).steep(i)) by {
            let s: u16 = sb as u16;
            let k: u16 = i as u16;
            assert(s < 16 && k < 16 ==> ((((f | (1u16 << s)) >> k) & 1u16 == 1u16) == (k == s || (f
                >> k) & 1u16 == 1u16))) by (bit_vector);
            assert((1u16 << sb) == (1u16 << s));
        }
    }

    pub fn is_all_sine(&self) -> (r: bool)
        ensures
            r == self.all_sine(),
    {
        let f: u16 = self.flags;
        proof {
            if f == 0 {
                assert forall|sb: int| 0 <= sb < 16 implies !#[trigger] self.steep(sb) by {
                    let s: u16 = sb as u16;
                    assert((0u16 >> s) & 1u16 == 0u16) by (bit_vector);
                }
            } else {
                assert(f != 0 ==> (f >> 0u16) & 1 == 1 || (f >> 1u16) & 1 == 1 || (f >> 2u16) & 1
                    == 1 || (f >> 3u16) & 1 == 1 || (f >> 4u16) & 1 == 1 || (f >> 5u16) & 1 == 1
                    || (f >> 6u16) & 1 == 1 || (f >> 7u16) & 1 == 1 || (f >> 8u16) & 1 == 1 || (f
                    >> 9u16) & 1 == 1 || (f >> 10u16) & 1 == 1 || (f >> 11u16) & 1 == 1 || (f
                    >> 12u16) & 1 == 1 || (f >> 13u16) & 1 == 1 || (f >> 14u16) & 1 == 1 || (f
                    >> 15u16) & 1 == 1) by (bit_vector);
                assert(self.steep(0) || self.steep(1) || self.steep(2) || self.steep(3)
                    || self.steep(4) || self.steep(5) || self.steep(6) || self.steep(7)
                    || self.steep(8) || self.steep(9) || self.steep(10) || self.steep(11)
                    || self.steep(12) || self.steep(13) || self.steep(14) || self.steep(15));
            }
        }
        self.flags == 0
    }

    /// Whether the first `sb_num` subbands are all steep.
    pub fn is_all_steep(&self, sb_num: u8) -> (r: bool)
        requires
            sb_num <= 16,
        ensures
            r == forall|sb: int| 0 <= sb < sb_num ==> #[trigger] self.steep(sb),
    {
        let mut sb: u8 = 0;
        while sb < sb_num
            invariant
                sb <= sb_num <= 16,
                forall|i: int| 0 <= i < sb ==> #[trigger] self.steep(i),
            decreases sb_num - sb,
        {
            if !self.is_sb_steep(sb) {
                return false;
            }
            sb += 1;
        }
        true
    }

    pub fn is_sb_steep(&self, sb: u8) -> (r: bool)
        requires
            sb < 16,
        ensures
            r == self.steep(sb as int),
    {
        (self.flags >> (sb as u16)) & 1 == 1
    }

    pub fn flags(&self) -> (f: u16)
        ensures
            forall|sb: int|
                0 <= sb < 16 ==> #[trigger] self.steep(sb) == ((f >> (sb as u16)) & 1u16 == 1u16),
    {
        self.flags
    }
}

impl Default for At3pMdctWin {
    fn default() -> (w: Self)
        ensures
            w.all_sine(),
    {
        At3pMdctWin::new()
    }
}

} // verus!
