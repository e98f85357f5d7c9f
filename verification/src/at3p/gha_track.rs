//! The search for the tones of a frame: what is kept of it, and what it does
//! next.

use vstd::prelude::*;
use crate::at3p::gha::At3PGhaData;

verus! {

/// Tones by their key, in rising order.
pub struct ToneMap<T> {
    entries: Vec<(u32, T)>,
}

impl<T: Copy> ToneMap<T> {
    pub closed spec fn wf(&self) -> bool {
        forall|i: int, j: int|
            0 <= i < j < self.entries@.len() ==> (#[trigger] self.entries@[i]).0 < (
            #[trigger] self.entries@[j]).0
    }

    /// The keys with their tones.
    pub closed spec fn map(&self) -> Map<u32, T> {
        Map::new(
            |k: u32| exists|i: int| 0 <= i < self.entries@.len() && (#[trigger] self.entries@[i]).0
                == k,
            |k: u32|
                {
                    let i = choose|i: int|
                        0 <= i < self.entries@.len() && (#[trigger] self.entries@[i]).0 == k;
                    self.entries@[i].1
                },
        )
    }

    /// The entries in the order of their keys.
    pub closed spec fn list(&self) -> Seq<(u32, T)> {
        self.entries@
    }

    proof fn lemma_at(&self, i: int)
        requires
            self.wf(),
            0 <= i < self.entries@.len(),
        ensures
            self.map().dom().contains(self.entries@[i].0),
            self.map()[self.entries@[i].0] == self.entries@[i].1,
    {
        let k = self.entries@[i].0;
        let j = choose|j: int|
            0 <= j < self.entries@.len() && (#[trigger] self.entries@[j]).0 == k;
        assert(self.entries@[j].0 == k);
        if i < j {
            assert(self.entries@[i].0 < self.entries@[j].0);
        } else if j < i {
            assert(self.entries@[j].0 < self.entries@[i].0);
        }
    }

    /// The list holds every key once, in rising order, with its tone.
    pub proof fn law_listed_in_order(&self)
        requires
            self.wf(),
        ensures
            forall|i: int, j: int|
                0 <= i < j < self.list().len() ==> (#[trigger] self.list()[i]).0 < (
                #[trigger] self.list()[j]).0,
            forall|k: u32|
                self.map().dom().contains(k) <==> exists|i: int|
                    0 <= i < self.list().len() && (#[trigger] self.list()[i]).0 == k,
            forall|i: int|
                0 <= i < self.list().len() ==> self.map()[(#[trigger] self.list()[i]).0]
                    == self.list()[i].1,
            self.map().dom().finite(),
            self.map().dom().len() == self.list().len(),
    {
        assert forall|i: int| 0 <= i < self.list().len() implies self.map()[(
        #[trigger] self.list()[i]).0] == self.list()[i].1 by {
            self.lemma_at(i);
        }
        let keys = Seq::new(self.list().len(), |i: int| self.list()[i].0);
        assert(keys.no_duplicates());
        keys.unique_seq_to_set();
        assert forall|k: u32| self.map().dom().contains(k) implies keys.to_set().contains(k) by {
            let i = choose|i: int|
                0 <= i < self.entries@.len() && (#[trigger] self.entries@[i]).0 == k;
            assert(keys[i] == k);
        }
        assert(keys.to_set() =~= self.map().dom());
    }

    pub fn new() -> (s: Self)
        ensures
            s.wf(),
            s.map() == Map::<u32, T>::empty(),
            s.list() == Seq::<(u32, T)>::empty(),
    {
        let s = ToneMap { entries: Vec::new() };
        assert(s.map() =~= Map::<u32, T>::empty());
        s
    }

    pub fn len(&self) -> (n: usize)
        ensures
            n == self.list().len(),
    {
        self.entries.len()
    }

    /// The key and the tone at a place of the order.
    pub fn get(&self, i: usize) -> (r: (u32, T))
        requires
            self.wf(),
            i < self.list().len(),
        ensures
            r == self.list()[i as int],
            self.map().dom().contains(r.0),
            self.map()[r.0] == r.1,
    {
        proof {
            self.lemma_at(i as int);
        }
        self.entries[i]
    }

    /// The first place whose key is at least `key`.
    fn place(&self, key: u32) -> (p: usize)
        requires
            self.wf(),
        ensures
            p <= self.entries@.len(),
            forall|i: int| 0 <= i < p ==> (#[trigger] self.entries@[i]).0 < key,
            forall|i: int| p <= i < self.entries@.len() ==> (#[trigger] self.entries@[i]).0 >= key,
    {
        let mut p: usize = 0;
        while p < self.entries.len() && self.entries[p].0 < key
            invariant
                p <= self.entries@.len(),
                forall|i: int| 0 <= i < p ==> (#[trigger] self.entries@[i]).0 < key,
            decreases self.entries@.len() - p,
        {
            p += 1;
        }
        assert forall|i: int| p <= i < self.entries@.len() implies (
        #[trigger] self.entries@[i]).0 >= key by {
            if i > p {
                assert(self.entries@[p as int].0 < self.entries@[i].0);
            }
        }
        p
    }

    pub fn insert(&mut self, key: u32, tone: T)
        requires
            old(self).wf(),
        ensures
            final(self).wf(),
            final(self).map() == old(self).map().insert(key, tone),
    {
        let p: usize = self.place(key);
        let ghost before = self.entries@;
        if p < self.entries.len() && self.entries[p].0 == key {
            self.entries[p] = (key, tone);
            proof {
                assert forall|i: int| 0 <= i < before.len() implies (
                #[trigger] self.entries@[i]).0 == before[i].0 by {}
                assert forall|k: u32|
                    self.map().dom().contains(k) == old(self).map().insert(
                        key,
                        tone,
                    ).dom().contains(k) by {
                    if old(self).map().dom().contains(k) {
                        let i = choose|i: int|
                            0 <= i < before.len() && (#[trigger] before[i]).0 == k;
                        assert(self.entries@[i].0 == k);
                    }
                    if self.map().dom().contains(k) {
                        let i = choose|i: int|
                            0 <= i < self.entries@.len() && (#[trigger] self.entries@[i]).0 == k;
                        assert(before[i].0 == k);
                    }
                    if k == key {
                        assert(self.entries@[p as int].0 == k);
                    }
                }
                assert forall|k: u32| self.map().dom().contains(k) implies self.map()[k] == old(
                    self,
                ).map().insert(key, tone)[k] by {
                    let i = choose|i: int|
                        0 <= i < self.entries@.len() && (#[trigger] self.entries@[i]).0 == k;
                    self.lemma_at(i);
                    assert(before[i].0 == k);
                    old(self).lemma_at(i);
                    if k == key && i != p {
                        if i < p {
                            assert(before[i].0 < before[p as int].0);
                        } else {
                            assert(before[p as int].0 < before[i].0);
                        }
                    }
                }
                assert(self.map() =~= old(self).map().insert(key, tone));
            }
        } else {
            self.entries.insert(p, (key, tone));
            proof {
                assert forall|i: int| 0 <= i < before.len() implies (#[trigger] before[i])
                    == self.entries@[if i < p {
                    i
                } else {
                    i + 1
                }] by {}
                assert forall|i: int, j: int|
                    0 <= i < j < self.entries@.len() implies (#[trigger] self.entries@[i]).0 < (
                #[trigger] self.entries@[j]).0 by {
                    let a = if i < p {
                        i
                    } else {
                        i - 1
                    };
                    let b = if j < p {
                        j
                    } else {
                        j - 1
                    };
                    if i != p && j != p {
                        assert(before[a].0 < before[b].0);
                    } else if i == p {
                        assert(before[b].0 >= key);
                        if b == p {
                            assert(before[p as int].0 != key);
                        } else {
                            assert(before[p as int].0 < before[b].0);
                        }
                    } else {
                        assert(before[a].0 < key);
                    }
                }
                assert forall|k: u32|
                    self.map().dom().contains(k) == old(self).map().insert(
                        key,
                        tone,
                    ).dom().contains(k) by {
                    if old(self).map().dom().contains(k) {
                        let i = choose|i: int|
                            0 <= i < before.len() && (#[trigger] before[i]).0 == k;
                        assert(before[i] == self.entries@[if i < p {
                            i
                        } else {
                            i + 1
                        }]);
                    }
                    if self.map().dom().contains(k) {
                        let i = choose|i: int|
                            0 <= i < self.entries@.len() && (#[trigger] self.entries@[i]).0 == k;
                        if i != p {
                            let a = if i < p {
                                i
                            } else {
                                i - 1
                            };
                            assert(before[a].0 == k);
                        }
                    }
                    if k == key {
                        assert(self.entries@[p as int].0 == k);
                    }
                }
                assert forall|k: u32| self.map().dom().contains(k) implies self.map()[k] == old(
                    self,
                ).map().insert(key, tone)[k] by {
                    let i = choose|i: int|
                        0 <= i < self.entries@.len() && (#[trigger] self.entries@[i]).0 == k;
                    self.lemma_at(i);
                    if i != p {
                        let a = if i < p {
                            i
                        } else {
                            i - 1
                        };
                        assert(before[a] == self.entries@[i]);
                        old(self).lemma_at(a);
                        self.lemma_at(p as int);
                        if k == key {
                            if i < p {
                                assert(self.entries@[i].0 < self.entries@[p as int].0);
                            } else {
                                assert(self.entries@[p as int].0 < self.entries@[i].0);
                            }
                        }
                    }
                }
                assert(self.map() =~= old(self).map().insert(key, tone));
            }
        }
    }

    pub fn remove(&mut self, key: u32)
        requires
            old(self).wf(),
        ensures
            final(self).wf(),
            final(self).map() == old(self).map().remove(key),
    {
        let p: usize = self.place(key);
        let ghost before = self.entries@;
        if p < self.entries.len() && self.entries[p].0 == key {
            self.entries.remove(p);
            proof {
                assert forall|i: int| 0 <= i < self.entries@.len() implies (
                #[trigger] self.entries@[i]) == before[if i < p {
                    i
                } else {
                    i + 1
                }] by {}
                assert forall|k: u32|
                    self.map().dom().contains(k) == old(self).map().remove(key).dom().contains(
                        k,
                    ) by {
                    if old(self).map().dom().contains(k) && k != key {
                        let i = choose|i: int|
                            0 <= i < before.len() && (#[trigger] before[i]).0 == k;
                        let a = if i < p {
                            i
                        } else {
                            i - 1
                        };
                        assert(self.entries@[a].0 == k);
                    }
                    if self.map().dom().contains(k) {
                        let i = choose|i: int|
                            0 <= i < self.entries@.len() && (#[trigger] self.entries@[i]).0 == k;
                        let a = if i < p {
                            i
                        } else {
                            i + 1
                        };
                        assert(before[a].0 == k);
                        if a < p {
                            assert(before[a].0 < before[p as int].0);
                        } else {
                            assert(before[p as int].0 < before[a].0);
                        }
                    }
                }
                assert forall|k: u32| self.map().dom().contains(k) implies self.map()[k] == old(
                    self,
                ).map()[k] by {
                    let i = choose|i: int|
                        0 <= i < self.entries@.len() && (#[trigger] self.entries@[i]).0 == k;
                    self.lemma_at(i);
                    old(self).lemma_at(if i < p {
                        i
                    } else {
                        i + 1
                    });
                }
                assert(self.map() =~= old(self).map().remove(key));
            }
        } else {
            proof {
                assert(!self.map().dom().contains(key)) by {
                    if self.map().dom().contains(key) {
                        let i = choose|i: int|
                            0 <= i < before.len() && (#[trigger] before[i]).0 == key;
                        if i > p {
                            assert(before[p as int].0 < before[i].0);
                        }
                    }
                }
                assert(self.map() =~= old(self).map().remove(key));
            }
        }
    }

    /// Some key lies in `lo..hi`.
    pub fn has_in(&self, lo: u32, hi: u32) -> (r: bool)
        requires
            self.wf(),
        ensures
            r == exists|k: u32| #[trigger] self.map().dom().contains(k) && lo <= k < hi,
    {
        let p: usize = self.place(lo);
        if p < self.entries.len() && self.entries[p].0 < hi {
            proof {
                self.lemma_at(p as int);
            }
            true
        } else {
            proof {
                assert forall|k: u32| #[trigger] self.map().dom().contains(k) implies !(lo <= k
                    < hi) by {
                    let i = choose|i: int|
                        0 <= i < self.entries@.len() && (#[trigger] self.entries@[i]).0 == k;
                    if i > p {
                        assert(self.entries@[p as int].0 < self.entries@[i].0);
                    }
                }
            }
            false
        }
    }
}

/// How an adjustment of tones went.
#[derive(Debug, Clone, Copy, PartialEq, Eq, Structural)]
pub enum AdjustStatus {
    Error,
    Good,
    Repeat,
}

/// The number of set flags in a row that end before `n`.
pub open spec fn run_before(good: Seq<bool>, n: nat) -> nat
    decreases n,
{
    if n == 0 || !good[n - 1] {
        0
    } else {
        run_before(good, (n - 1) as nat) + 1
    }
}

/// Start and length of the longest run of set flags among the first `n`; the
/// first one of equally long ones.
pub open spec fn longest_run(good: Seq<bool>, n: nat) -> (int, nat)
    decreases n,
{
    if n == 0 {
        (0, 0)
    } else {
        let best = longest_run(good, (n - 1) as nat);
        let r = run_before(good, n);
        if r > best.1 {
            (n - r, r)
        } else {
            best
        }
    }
}

proof fn lemma_run_bounds(good: Seq<bool>, n: nat)
    ensures
        run_before(good, n) <= n,
        0 <= longest_run(good, n).0,
        longest_run(good, n).0 + longest_run(good, n).1 <= n,
    decreases n,
{
    if n > 0 {
        lemma_run_bounds(good, (n - 1) as nat);
    }
}

fn find_longest_run(good: &[bool]) -> (r: (usize, usize))
    ensures
        r.0 == longest_run(good@, good@.len()).0,
        r.1 == longest_run(good@, good@.len()).1,
        r.0 + r.1 <= good@.len(),
{
    let mut start: usize = 0;
    let mut len: usize = 0;
    let mut count: usize = 0;
    let mut i: usize = 0;
    while i < good.len()
        invariant
            i <= good@.len(),
            count == run_before(good@, i as nat),
            count <= i,
            start == longest_run(good@, i as nat).0,
            len == longest_run(good@, i as nat).1,
        decreases good@.len() - i,
    {
        proof {
            lemma_run_bounds(good@, (i + 1) as nat);
        }
        if good[i] {
            count += 1;
            if count > len {
                len = count;
                start = i + 1 - count;
            }
        } else {
            count = 0;
        }
        i += 1;
    }
    proof {
        lemma_run_bounds(good@, good@.len());
    }
    (start, len)
}

/// What follows from a look at a residual.
#[derive(Debug, Clone, Copy, PartialEq, Eq)]
pub struct ResidualVerdict {
    pub status: AdjustStatus,
    /// The number of samples to adjust over when the adjustment is repeated.
    pub frame_sz: usize,
    pub envelope: (u32, u32),
    /// The energy of the residual is the one to compare with next.
    pub keep_energy: bool,
    /// The residual replaces the signal of the subband.
    pub apply: bool,
}

/// The verdict on a residual whose blocks of four samples are quieter than the
/// signal where `good` is set. `louder` says that the residual has not become
/// quieter than the one before. Tones that reach over less than four blocks are
/// no good; tones that end early are adjusted once more over their own length.
pub open spec fn residual_verdict(
    envelope: (u32, u32),
    status: AdjustStatus,
    frame_sz: usize,
    good: Seq<bool>,
    louder: bool,
) -> ResidualVerdict {
    let run = longest_run(good, good.len());
    let start = (4 * run.0) as u32;
    let end = (4 * run.0 + 4 * run.1) as u32;
    let same = ResidualVerdict { status, frame_sz, envelope, keep_energy: false, apply: false };
    if run.1 < 4 {
        ResidualVerdict { status: AdjustStatus::Error, ..same }
    } else if status != AdjustStatus::Repeat && end != 128 {
        ResidualVerdict { status: AdjustStatus::Repeat, frame_sz: end as usize, ..same }
    } else if louder {
        ResidualVerdict { status: AdjustStatus::Error, ..same }
    } else if envelope.1 == At3PGhaData::EMPTY_POINT && end != 128 {
        ResidualVerdict {
            status: AdjustStatus::Error,
            envelope: (start, envelope.1),
            keep_energy: true,
            ..same
        }
    } else {
        ResidualVerdict {
            status: AdjustStatus::Good,
            envelope: (start, end),
            keep_energy: true,
            apply: true,
            ..same
        }
    }
}

pub fn check_residual(
    envelope: (u32, u32),
    status: AdjustStatus,
    frame_sz: usize,
    good: &[bool],
    louder: bool,
) -> (v: ResidualVerdict)
    requires
        good@.len() == 32,
    ensures
        v == residual_verdict(envelope, status, frame_sz, good@, louder),
{
    let (first, len): (usize, usize) = find_longest_run(good);
    let start: u32 = (4 * first) as u32;
    let end: u32 = (4 * first + 4 * len) as u32;
    if len < 4 {
        return ResidualVerdict {
            status: AdjustStatus::Error,
            frame_sz,
            envelope,
            keep_energy: false,
            apply: false,
        };
    }
    if status != AdjustStatus::Repeat && end != 128 {
        return ResidualVerdict {
            status: AdjustStatus::Repeat,
            frame_sz: end as usize,
            envelope,
            keep_energy: false,
            apply: false,
        };
    }
    if louder {
        return ResidualVerdict {
            status: AdjustStatus::Error,
            frame_sz,
            envelope,
            keep_energy: false,
            apply: false,
        };
    }
    if envelope.1 == At3PGhaData::EMPTY_POINT && end != 128 {
        return ResidualVerdict {
            status: AdjustStatus::Error,
            frame_sz,
            envelope: (start, envelope.1),
            keep_energy: true,
            apply: false,
        };
    }
    ResidualVerdict {
        status: AdjustStatus::Good,
        frame_sz,
        envelope: (start, end),
        keep_energy: true,
        apply: true,
    }
}

/// An adjustment is repeated at most once.
pub proof fn law_adjustment_repeats_once(
    envelope: (u32, u32),
    frame_sz: usize,
    good: Seq<bool>,
    louder: bool,
)
    ensures
        residual_verdict(envelope, AdjustStatus::Repeat, frame_sz, good, louder).status
            != AdjustStatus::Repeat,
{
}

/// A subband whose search is over.
pub const BAND_DONE: u8 = 16;

/// The most tones of a frame.
pub const MAX_TONES: usize = 48;

/// Two tones lie at least this far apart when the second one is found.
pub const MIN_FREQ_DISTANCE: u32 = 20;

/// What to do next in a subband.
#[derive(Debug, Clone, Copy, PartialEq, Eq, Structural)]
pub enum RoundAction {
    /// Its search is over.
    Skip,
    /// The frame has all the tones that it can take.
    Stop,
    /// Adjust its tones to each other, then look for another one.
    Adjust,
    /// Look for its first tone.
    Analyse,
}

/// What became of a subband in a round of the search.
#[derive(Debug, Clone, Copy, PartialEq, Eq, Structural)]
pub enum SubbandEvent {
    /// Its search was over before.
    Skipped,
    /// The frame had all the tones that it can take.
    Full,
    /// Its tones could not be adjusted, and its search is over.
    GivenUp,
    /// It was analysed, and no tone was added.
    NothingAdded,
    /// It was analysed, and a tone was added.
    Added,
}

/// What becomes of a subband without an analysis; nothing where it is to be analysed.
/// `searching` says that the search in it goes on after its tones were adjusted.
pub fn before_analysis(action: RoundAction, searching: bool) -> (e: Option<SubbandEvent>)
    ensures
        e == (match action {
            RoundAction::Skip => Some(SubbandEvent::Skipped),
            RoundAction::Stop => Some(SubbandEvent::Full),
            RoundAction::Adjust => if searching {
                None
            } else {
                Some(SubbandEvent::GivenUp)
            },
            RoundAction::Analyse => None,
        }),
{
    match action {
        RoundAction::Skip => Some(SubbandEvent::Skipped),
        RoundAction::Stop => Some(SubbandEvent::Full),
        RoundAction::Adjust => if searching {
            None
        } else {
            Some(SubbandEvent::GivenUp)
        },
        RoundAction::Analyse => None,
    }
}

/// Where a round stands: whether it has made progress, and whether it is over.
#[derive(Debug, Clone, Copy, PartialEq, Eq, Structural)]
pub struct RoundState {
    pub progress: bool,
    pub ended: bool,
}

impl RoundState {
    /// The state after a subband: an added tone is progress, and a full frame ends the
    /// round as one without any.
    pub open spec fn after(&self, event: SubbandEvent) -> Self {
        match event {
            SubbandEvent::Full => RoundState { progress: false, ended: true },
            SubbandEvent::Added => RoundState { progress: true, ..*self },
            _ => *self,
        }
    }

    pub fn new() -> (s: Self)
        ensures
            s == (RoundState { progress: false, ended: false }),
    {
        RoundState { progress: false, ended: false }
    }

    /// Takes note of what became of a subband.
    pub fn step(&self, event: SubbandEvent) -> (s: Self)
        ensures
            s == self.after(event),
    {
        match event {
            SubbandEvent::Full => RoundState { progress: false, ended: true },
            SubbandEvent::Added => RoundState { progress: true, ended: self.ended },
            _ => *self,
        }
    }
}

/// The state of a round after the first `n` of these events.
pub open spec fn round_after(events: Seq<SubbandEvent>, n: nat) -> RoundState
    decreases n,
{
    if n == 0 {
        RoundState { progress: false, ended: false }
    } else {
        round_after(events, (n - 1) as nat).after(events[n - 1])
    }
}

/// A round that goes on until the frame is full or no subband is left makes progress
/// exactly where a tone was added and the frame did not get full.
pub proof fn law_round_progress(events: Seq<SubbandEvent>, n: nat)
    requires
        n <= events.len(),
        forall|i: int| 0 <= i < n - 1 ==> #[trigger] events[i] != SubbandEvent::Full,
    ensures
        round_after(events, n).ended == (n > 0 && events[n - 1] == SubbandEvent::Full),
        round_after(events, n).progress == (!round_after(events, n).ended && exists|i: int|
            0 <= i < n && #[trigger] events[i] == SubbandEvent::Added),
    decreases n,
{
    if n > 0 {
        law_round_progress(events, (n - 1) as nat);
        let before = round_after(events, (n - 1) as nat);
        if n > 1 {
            assert(events[n - 2] != SubbandEvent::Full);
        }
        assert(!before.ended);
        if events[n - 1] == SubbandEvent::Added {
            assert(exists|i: int| 0 <= i < n && #[trigger] events[i] == SubbandEvent::Added);
        } else if before.progress {
            let i = choose|i: int|
                0 <= i < n - 1 && #[trigger] events[i] == SubbandEvent::Added;
            assert(events[i] == SubbandEvent::Added);
        }
    }
}

/// What is kept of a channel while its tones are searched for: `T` is what a tone
/// is measured by.
pub struct ToneTracker<T> {
    pub envelopes: [(u32, u32); 8],
    pub gapless: [bool; 8],
    pub subband_done: [u8; 8],
    pub last_added_freq_idx: [u32; 8],
    pub tones: ToneMap<T>,
}

/// Key `k` belongs to subband `sb`.
pub open spec fn in_band(k: u32, sb: int) -> bool {
    k as int / 1024 == sb
}

/// The key of a tone of subband `sb` whose frequency, in steps of which 1024 make up
/// the band, was rounded to `rounded`.
pub fn gha_freq_to_index(rounded: i64, sb: usize) -> (k: u32)
    requires
        sb < 8,
    ensures
        k == sb * 1024 + rounded % 1024,
        in_band(k, sb as int),
{
    let step: i64 = rounded & 1023;
    assert(step == rounded & 1023 ==> 0 <= step < 1024 && step == rounded % 1024) by (bit_vector);
    sb as u32 * 1024 + step as u32
}

/// The index of a phase that was rounded to `rounded` thirty-seconds of a period.
pub fn gha_phase_to_index(rounded: i64) -> (r: u32)
    ensures
        r == rounded % 32,
{
    let step: i64 = rounded & 31;
    assert(step == rounded & 31 ==> 0 <= step < 32 && step == rounded % 32) by (bit_vector);
    step as u32
}

/// The index of the largest amplitude of an ascending table that is not above
/// `amp`, or of the first where all are. Amplitudes are given by keys with their order.
pub fn amplitude_to_sf(table: &[i32], amp: i32) -> (r: u32)
    requires
        0 < table@.len() <= u32::MAX,
        forall|i: int, j: int| 0 <= i <= j < table@.len() ==> table@[i] <= table@[j],
    ensures
        r < table@.len(),
        r > 0 ==> table@[r as int] <= amp,
        forall|i: int| r < i < table@.len() ==> table@[i] > amp,
{
    let mut r: usize = table.len() - 1;
    while r > 0 && table[r] > amp
        invariant
            r < table@.len(),
            forall|i: int| r < i < table@.len() ==> table@[i] > amp,
        decreases r,
    {
        r -= 1;
    }
    r as u32
}

/// The keys of two adjacent tones are equal.
pub open spec fn has_double<T>(adjusted: Seq<(u32, T)>) -> bool {
    exists|i: int| 0 < i < adjusted.len() && adjusted[i - 1].0 == (#[trigger] adjusted[i]).0
}

/// `m` with the first `n` tones put in.
pub open spec fn with_tones<T>(m: Map<u32, T>, tones: Seq<(u32, T)>, n: nat) -> Map<u32, T>
    decreases n,
{
    if n == 0 {
        m
    } else {
        with_tones(m, tones, (n - 1) as nat).insert(tones[n - 1].0, tones[n - 1].1)
    }
}

/// One step of a search, told by the tones that all channels keep and by the count of
/// a frame's tones: a tone is added while there is room, a tone is given up, or no tone
/// is added.
pub open spec fn is_count_step(kept: int, total: int, kept_after: int, total_after: int) -> bool {
    ||| total < MAX_TONES && kept_after == kept + 1 && total_after == total + 1
    ||| kept_after == kept - 1 && total_after == total - 1
    ||| kept_after <= kept && total_after == total
}

/// However long a search goes on, a frame keeps no more tones than are counted, and at
/// most as many as it can take.
pub proof fn law_tones_stay_within(kept: Seq<int>, totals: Seq<int>, k: int)
    requires
        kept[0] == 0,
        totals[0] == 0,
        0 <= k,
        forall|i: int|
            0 <= i < k ==> #[trigger] is_count_step(
                kept[i],
                totals[i],
                kept[i + 1],
                totals[i + 1],
            ),
    ensures
        kept[k] <= totals[k] <= MAX_TONES,
    decreases k,
{
    if k > 0 {
        law_tones_stay_within(kept, totals, k - 1);
        assert(is_count_step(kept[k - 1], totals[k - 1], kept[k - 1 + 1], totals[k - 1 + 1]));
    }
}

/// No two tones have the same key.
pub open spec fn keys_distinct<T>(tones: Seq<(u32, T)>) -> bool {
    forall|i: int, j: int|
        0 <= i < j < tones.len() ==> (#[trigger] tones[i]).0 != (#[trigger] tones[j]).0
}

/// How many keys there are once tones are put in that `m` has no keys of.
proof fn lemma_with_tones_len<T>(m: Map<u32, T>, tones: Seq<(u32, T)>, n: nat)
    requires
        m.dom().finite(),
        n <= tones.len(),
    ensures
        with_tones(m, tones, n).dom().finite(),
        with_tones(m, tones, n).dom().len() <= m.dom().len() + n,
        keys_distinct(tones) && (forall|i: int|
            0 <= i < tones.len() ==> !m.dom().contains((#[trigger] tones[i]).0)) ==> {
            &&& with_tones(m, tones, n).dom().len() == m.dom().len() + n
            &&& forall|i: int|
                n <= i < tones.len() ==> !with_tones(m, tones, n).dom().contains(
                    (#[trigger] tones[i]).0,
                )
        },
    decreases n,
{
    if n > 0 {
        lemma_with_tones_len(m, tones, (n - 1) as nat);
        let before = with_tones(m, tones, (n - 1) as nat);
        let key = tones[n - 1].0;
        assert(with_tones(m, tones, n).dom() =~= before.dom().insert(key));
    }
}

impl<T: Copy> ToneTracker<T> {
    /// The number of tones that are kept.
    pub open spec fn num_tones(&self) -> nat {
        self.tones.map().dom().len()
    }

    /// The keys of the tones of subband `sb`.
    pub open spec fn band_keys(&self, sb: int) -> Set<u32> {
        self.tones.map().dom().filter(|k: u32| in_band(k, sb))
    }

    /// Tones lie in the eight subbands, and none in one where none was added.
    pub open spec fn wf(&self) -> bool {
        &&& self.tones.wf()
        &&& forall|k: u32| #[trigger] self.tones.map().dom().contains(k) ==> k < 8192
        &&& forall|sb: int| 0 <= sb < 8 ==> #[trigger] self.subband_done@[sb] <= BAND_DONE
        &&& forall|k: u32| #[trigger]
            self.tones.map().dom().contains(k) ==> self.subband_done@[k as int / 1024] > 0
    }

    pub fn new() -> (t: Self)
        ensures
            t.wf(),
            t.tones.map() == Map::<u32, T>::empty(),
            t.num_tones() == 0,
            forall|sb: int|
                0 <= sb < 8 ==> #[trigger] t.subband_done@[sb] == 0 && t.gapless@[sb] == false
                    && t.last_added_freq_idx@[sb] == 0 && t.envelopes@[sb] == (
                    At3PGhaData::INIT,
                    At3PGhaData::INIT,
                ),
    {
        ToneTracker {
            envelopes: [(At3PGhaData::INIT, At3PGhaData::INIT); 8],
            gapless: [false; 8],
            subband_done: [0; 8],
            last_added_freq_idx: [0; 8],
            tones: ToneMap::new(),
        }
    }

    pub fn mark_subband_done(&mut self, sb: usize)
        requires
            old(self).wf(),
            sb < 8,
        ensures
            final(self).wf(),
            final(self).subband_done@ == old(self).subband_done@.update(sb as int, BAND_DONE),
            final(self).tones == old(self).tones,
            final(self).envelopes == old(self).envelopes,
            final(self).gapless == old(self).gapless,
            final(self).last_added_freq_idx == old(self).last_added_freq_idx,
    {
        self.subband_done[sb] = BAND_DONE;
    }

    pub fn is_subband_done(&self, sb: usize) -> (r: bool)
        requires
            sb < 8,
        ensures
            r == (self.subband_done@[sb as int] == BAND_DONE),
    {
        self.subband_done[sb] == BAND_DONE
    }

    /// What to do in subband `sb` of a frame that has `total_tones`.
    pub fn next_action(&self, sb: usize, total_tones: usize) -> (a: RoundAction)
        requires
            self.wf(),
            sb < 8,
        ensures
            a == (if self.subband_done@[sb as int] == BAND_DONE {
                RoundAction::Skip
            } else if total_tones >= MAX_TONES {
                RoundAction::Stop
            } else if exists|k: u32| #[trigger]
                self.tones.map().dom().contains(k) && in_band(k, sb as int) {
                RoundAction::Adjust
            } else {
                RoundAction::Analyse
            }),
    {
        if self.is_subband_done(sb) {
            return RoundAction::Skip;
        }
        if total_tones >= MAX_TONES {
            return RoundAction::Stop;
        }
        let lo: u32 = sb as u32 * 1024;
        let present: bool = self.tones.has_in(lo, lo + 1024);
        proof {
            if present {
                let k = choose|k: u32| #[trigger]
                    self.tones.map().dom().contains(k) && lo <= k < lo + 1024;
                assert(in_band(k, sb as int));
            }
        }
        if present {
            RoundAction::Adjust
        } else {
            RoundAction::Analyse
        }
    }

    /// The tones that were adjusted are given up, with the one that was added
    /// last: the adjustment failed, two tones have met, or they break off where
    /// they were to go on into the next frame.
    pub open spec fn gives_up(
        &self,
        sb: int,
        good: bool,
        adjusted: Seq<(u32, T)>,
        goes_on: bool,
    ) -> bool {
        let stop = self.envelopes@[sb].1;
        ||| !good
        ||| has_double(adjusted)
        ||| (stop == 128 || stop == At3PGhaData::EMPTY_POINT) && self.gapless@[sb] && !goes_on
    }

    /// Takes over adjusted tones of a subband, or gives the last one up and ends
    /// the search there. Says whether the search goes on. `goes_on` says that the
    /// tones fit the next frame too.
    pub fn settle_adjusted(
        &mut self,
        sb: usize,
        good: bool,
        adjusted: &[(u32, T)],
        goes_on: bool,
        total_tones: &mut usize,
    ) -> (searching: bool)
        requires
            old(self).wf(),
            sb < 8,
            old(self).subband_done@[sb as int] > 0,
            *old(total_tones) >= 1,
            forall|i: int|
                0 <= i < adjusted@.len() ==> in_band((#[trigger] adjusted@[i]).0, sb as int),
        ensures
            final(self).wf(),
            searching == !old(self).gives_up(sb as int, good, adjusted@, goes_on),
            final(self).last_added_freq_idx == old(self).last_added_freq_idx,
            old(self).tones.map().dom().contains(old(self).last_added_freq_idx@[sb as int])
                && adjusted@.len() <= old(self).band_keys(sb as int).len() ==> is_count_step(
                old(self).num_tones() as int,
                *old(total_tones) as int,
                final(self).num_tones() as int,
                *final(total_tones) as int,
            ),
            !searching ==> {
                &&& final(self).tones.map() == old(self).tones.map().remove(
                    old(self).last_added_freq_idx@[sb as int],
                )
                &&& *final(total_tones) == *old(total_tones) - 1
                &&& old(self).tones.map().dom().contains(
                    old(self).last_added_freq_idx@[sb as int],
                ) ==> final(self).num_tones() == old(self).num_tones() - 1
                &&& final(self).subband_done@ == old(self).subband_done@.update(
                    sb as int,
                    BAND_DONE,
                )
                &&& final(self).envelopes == old(self).envelopes
                &&& final(self).gapless == old(self).gapless
            },
            searching ==> {
                let extends = old(self).envelopes@[sb as int].1 == 128 && goes_on;
                &&& final(self).tones.map() == with_tones(
                    old(self).tones.map().remove_keys(Set::new(|k: u32| in_band(k, sb as int))),
                    adjusted@,
                    adjusted@.len(),
                )
                &&& *final(total_tones) == *old(total_tones)
                &&& adjusted@.len() <= old(self).band_keys(sb as int).len()
                    ==> final(self).num_tones() <= old(self).num_tones()
                &&& adjusted@.len() == old(self).band_keys(sb as int).len() && keys_distinct(
                    adjusted@,
                ) ==> final(self).num_tones() == old(self).num_tones()
                &&& final(self).subband_done == old(self).subband_done
                &&& final(self).envelopes@ == (if extends {
                    old(self).envelopes@.update(
                        sb as int,
                        (old(self).envelopes@[sb as int].0, At3PGhaData::EMPTY_POINT),
                    )
                } else {
                    old(self).envelopes@
                })
                &&& final(self).gapless@ == (if extends {
                    old(self).gapless@.update(sb as int, true)
                } else {
                    old(self).gapless@
                })
            },
    {
        proof {
            self.tones.law_listed_in_order();
        }
        let stop: u32 = self.envelopes[sb].1;
        let double: bool = adjacent_double(adjusted);
        let at_end: bool = stop == 128 || stop == At3PGhaData::EMPTY_POINT;
        if !good || double || (at_end && self.gapless[sb] && !goes_on) {
            let last: u32 = self.last_added_freq_idx[sb];
            self.tones.remove(last);
            *total_tones = *total_tones - 1;
            self.subband_done[sb] = BAND_DONE;
            return false;
        }
        if stop == 128 && goes_on {
            let first: u32 = self.envelopes[sb].0;
            self.envelopes[sb] = (first, At3PGhaData::EMPTY_POINT);
            self.gapless[sb] = true;
        }
        let ghost before = self.tones.map();
        let ghost left = before.remove_keys(Set::new(|k: u32| in_band(k, sb as int)));
        self.clear_band(sb);
        let mut i: usize = 0;
        while i < adjusted.len()
            invariant
                i <= adjusted@.len(),
                sb < 8,
                self.tones.wf(),
                self.tones.map() == with_tones(left, adjusted@, i as nat),
                forall|k: u32| #[trigger]
                    self.tones.map().dom().contains(k) ==> k < 8192 && self.subband_done@[k as int
                        / 1024] > 0,
                forall|j: int|
                    0 <= j < adjusted@.len() ==> in_band((#[trigger] adjusted@[j]).0, sb as int),
                self.subband_done == old(self).subband_done,
                self.subband_done@[sb as int] > 0,
                self.last_added_freq_idx == old(self).last_added_freq_idx,
                self.envelopes@ == (if stop == 128 && goes_on {
                    old(self).envelopes@.update(
                        sb as int,
                        (old(self).envelopes@[sb as int].0, At3PGhaData::EMPTY_POINT),
                    )
                } else {
                    old(self).envelopes@
                }),
                self.gapless@ == (if stop == 128 && goes_on {
                    old(self).gapless@.update(sb as int, true)
                } else {
                    old(self).gapless@
                }),
            decreases adjusted@.len() - i,
        {
            let t: (u32, T) = adjusted[i];
            assert(in_band(adjusted@[i as int].0, sb as int));
            self.tones.insert(t.0, t.1);
            i += 1;
        }
        proof {
            let band = Set::new(|k: u32| in_band(k, sb as int));
            let keys = old(self).band_keys(sb as int);
            assert(keys =~= before.dom().intersect(band));
            assert(left.dom() =~= before.dom().difference(keys));
            vstd::set_lib::lemma_len_subset(keys, before.dom());
            vstd::set_lib::lemma_len_subset(left.dom(), before.dom());
            assert(left.dom() + keys =~= before.dom());
            vstd::set_lib::lemma_set_disjoint_lens(left.dom(), keys);
            lemma_with_tones_len(left, adjusted@, adjusted@.len());
        }
        true
    }

    /// Takes the tones of a subband out.
    fn clear_band(&mut self, sb: usize)
        requires
            old(self).tones.wf(),
            sb < 8,
        ensures
            final(self).tones.wf(),
            final(self).tones.map() == old(self).tones.map().remove_keys(
                Set::new(|k: u32| in_band(k, sb as int)),
            ),
            final(self).envelopes == old(self).envelopes,
            final(self).gapless == old(self).gapless,
            final(self).subband_done == old(self).subband_done,
            final(self).last_added_freq_idx == old(self).last_added_freq_idx,
    {
        let lo: u32 = sb as u32 * 1024;
        let ghost before = self.tones.map();
        let mut k: u32 = 0;
        assert(before =~= before.remove_keys(Set::new(|x: u32| lo <= x < lo)));
        while k < 1024
            invariant
                k <= 1024,
                lo == sb * 1024,
                sb < 8,
                self.tones.wf(),
                before == old(self).tones.map(),
                self.tones.map() == before.remove_keys(Set::new(|x: u32| lo <= x < lo + k)),
                self.envelopes == old(self).envelopes,
                self.gapless == old(self).gapless,
                self.subband_done == old(self).subband_done,
                self.last_added_freq_idx == old(self).last_added_freq_idx,
            decreases 1024 - k,
        {
            self.tones.remove(lo + k);
            assert(self.tones.map() =~= before.remove_keys(
                Set::new(|x: u32| lo <= x < lo + k + 1),
            ));
            k += 1;
        }
        assert(Set::new(|x: u32| lo <= x < lo + 1024) =~= Set::new(
            |x: u32| in_band(x, sb as int),
        ));
    }

    /// A known tone is closer to `freq_index` than two tones may be.
    pub open spec fn too_close(&self, freq_index: u32) -> bool {
        exists|k: u32| #[trigger]
            self.tones.map().dom().contains(k) && -(MIN_FREQ_DISTANCE as int) < k - freq_index
                < MIN_FREQ_DISTANCE
    }

    /// The tone that was found joins the others.
    pub open spec fn accepts(&self, sb: int, freq_index: u32, audible: bool) -> bool {
        audible && (self.subband_done@[sb] == 0 || !self.too_close(freq_index)
            && self.subband_done@[sb] != 15)
    }

    /// Adds the tone that was found in a subband, or ends the search there. Says
    /// whether the tone was added.
    pub fn add_tone(
        &mut self,
        sb: usize,
        freq_index: u32,
        audible: bool,
        tone: T,
        total_tones: &mut usize,
    ) -> (progress: bool)
        requires
            old(self).wf(),
            sb < 8,
            in_band(freq_index, sb as int),
            old(self).subband_done@[sb as int] < BAND_DONE,
            *old(total_tones) < usize::MAX,
        ensures
            final(self).wf(),
            progress == old(self).accepts(sb as int, freq_index, audible),
            *old(total_tones) < MAX_TONES ==> is_count_step(
                old(self).num_tones() as int,
                *old(total_tones) as int,
                final(self).num_tones() as int,
                *final(total_tones) as int,
            ),
            final(self).envelopes == old(self).envelopes,
            final(self).gapless == old(self).gapless,
            progress ==> {
                &&& final(self).tones.map() == old(self).tones.map().insert(freq_index, tone)
                &&& final(self).last_added_freq_idx@ == old(self).last_added_freq_idx@.update(
                    sb as int,
                    freq_index,
                )
                &&& final(self).subband_done@ == old(self).subband_done@.update(
                    sb as int,
                    (old(self).subband_done@[sb as int] + 1) as u8,
                )
                &&& *final(total_tones) == *old(total_tones) + 1
                &&& final(self).num_tones() == old(self).num_tones() + 1
            },
            !progress ==> {
                &&& final(self).tones == old(self).tones
                &&& final(self).last_added_freq_idx == old(self).last_added_freq_idx
                &&& final(self).subband_done@ == old(self).subband_done@.update(
                    sb as int,
                    BAND_DONE,
                )
                &&& *final(total_tones) == *old(total_tones)
            },
    {
        proof {
            self.tones.law_listed_in_order();
            assert(self.tones.map().dom().contains(freq_index) ==> self.too_close(freq_index));
        }
        if !audible {
            self.subband_done[sb] = BAND_DONE;
            return false;
        }
        if self.subband_done[sb] != 0 {
            let lo: u32 = if freq_index >= MIN_FREQ_DISTANCE - 1 {
                freq_index - (MIN_FREQ_DISTANCE - 1)
            } else {
                0
            };
            let hi: u32 = freq_index + MIN_FREQ_DISTANCE;
            let close: bool = self.tones.has_in(lo, hi);
            assert(close == self.too_close(freq_index));
            if close || self.subband_done[sb] == 15 {
                self.subband_done[sb] = BAND_DONE;
                return false;
            }
        }
        self.tones.insert(freq_index, tone);
        self.last_added_freq_idx[sb] = freq_index;
        let done: u8 = self.subband_done[sb];
        self.subband_done[sb] = done + 1;
        *total_tones = *total_tones + 1;
        true
    }
}

fn adjacent_double<T: Copy>(adjusted: &[(u32, T)]) -> (r: bool)
    ensures
        r == has_double(adjusted@),
{
    let mut i: usize = 1;
    while i < adjusted.len()
        invariant
            1 <= i,
            i <= adjusted@.len() || i == 1,
            forall|j: int| 0 < j < i ==> adjusted@[j - 1].0 != (#[trigger] adjusted@[j]).0,
        decreases adjusted@.len() - i,
    {
        if adjusted[i - 1].0 == adjusted[i].0 {
            assert(adjusted@[i - 1].0 == adjusted@[i as int].0);
            return true;
        }
        i += 1;
    }
    false
}

proof fn lemma_run_before(good: Seq<bool>, n: nat, i: int)
    ensures
        run_before(good, n) <= n,
        n - run_before(good, n) <= i < n ==> good[i],
        run_before(good, n) < n ==> !good[n - run_before(good, n) - 1],
    decreases n,
{
    if n > 0 && good[n - 1] {
        lemma_run_before(good, (n - 1) as nat, i);
    }
}

proof fn lemma_run_before_longest(good: Seq<bool>, n: nat, a: int)
    requires
        0 <= a <= n,
        forall|k: int| a <= k < n ==> good[k],
    ensures
        run_before(good, n) >= n - a,
    decreases n,
{
    if a < n {
        assert(good[n - 1]);
        lemma_run_before_longest(good, (n - 1) as nat, a);
    }
}

/// The longest run is a run of set flags, no run of set flags is longer, and none that is as
/// long starts before it.
pub proof fn law_longest_run(good: Seq<bool>, n: nat, a: int, b: int, i: int)
    requires
        n <= good.len(),
        0 <= a < b <= n,
    ensures
        ({
            let (s, l) = longest_run(good, n);
            &&& 0 <= s
            &&& s + l <= n
            &&& s <= i < s + l ==> good[i]
            &&& (forall|k: int| a <= k < b ==> good[k]) ==> b - a <= l && (b - a == l ==> s <= a)
        }),
    decreases n,
{
    let r = run_before(good, n);
    let (s, l) = longest_run(good, n);
    lemma_longest_within(good, (n - 1) as nat, i);
    lemma_run_before(good, n, i);
    if forall|k: int| a <= k < b ==> good[k] {
        if b == n {
            lemma_run_before_longest(good, n, a);
            if a + 1 < n {
                assert forall|k: int| a <= k < n - 1 implies good[k] by {}
                if r > longest_run(good, (n - 1) as nat).1 {
                } else if b - a == l {
                    lemma_earlier_run(good, (n - 1) as nat);
                }
            } else {
                lemma_earlier_run(good, (n - 1) as nat);
            }
        } else {
            law_longest_run(good, (n - 1) as nat, a, b, i);
        }
    }
}

proof fn lemma_longest_within(good: Seq<bool>, n: nat, i: int)
    ensures
        ({
            let (s, l) = longest_run(good, n);
            &&& 0 <= s
            &&& s + l <= n
            &&& s <= i < s + l ==> good[i]
        }),
    decreases n,
{
    if n > 0 {
        lemma_longest_within(good, (n - 1) as nat, i);
        lemma_run_before(good, n, i);
    }
}

/// The longest run ends no later than the flags that were looked at.
proof fn lemma_earlier_run(good: Seq<bool>, n: nat)
    ensures
        longest_run(good, n).0 + longest_run(good, n).1 <= n,
{
    lemma_longest_within(good, n, 0);
}

/// What a look at a residual comes to, by the longest run of quieter blocks, of `l` blocks
/// from `s` on. Fewer than four blocks are an error. A run that does not reach the end of
/// the frame is adjusted over once more, up to its end. Else the residual must have become
/// quieter; then the envelope goes from the first to the last sample of the run, except that
/// tones that are to have no end must reach that of the frame.
pub proof fn law_residual_verdict(
    envelope: (u32, u32),
    status: AdjustStatus,
    frame_sz: usize,
    good: Seq<bool>,
    louder: bool,
)
    requires
        good.len() == 32,
    ensures
        ({
            let v = residual_verdict(envelope, status, frame_sz, good, louder);
            let (s, l) = longest_run(good, 32);
            let end = 4 * (s + l);
            &&& l < 4 ==> v.status == AdjustStatus::Error
            &&& l >= 4 && status != AdjustStatus::Repeat && end != 128 ==> v.status
                == AdjustStatus::Repeat && v.frame_sz == end
            &&& v.status != AdjustStatus::Repeat ==> v.frame_sz == frame_sz
            &&& l >= 4 && (status == AdjustStatus::Repeat || end == 128) ==> {
                &&& louder ==> v.status == AdjustStatus::Error
                &&& !louder && (envelope.1 != 0xFFFF_FFFF || end == 128) ==> v.status
                    == AdjustStatus::Good && v.envelope == ((4 * s) as u32, end as u32)
                &&& !louder && envelope.1 == 0xFFFF_FFFF && end != 128 ==> v.status
                    == AdjustStatus::Error && v.envelope == ((4 * s) as u32, envelope.1)
                &&& v.keep_energy == !louder
            }
            &&& v.apply == (v.status == AdjustStatus::Good)
            &&& l < 4 || louder || v.status == AdjustStatus::Repeat ==> v.envelope == envelope
            &&& l < 4 || v.status == AdjustStatus::Repeat ==> !v.keep_energy
        }),
{
    lemma_longest_within(good, 32, 0);
}

/// Tones of different keys are all put in, each under its own key; what was there under
/// other keys stays.
pub proof fn law_tones_put_in<T>(m: Map<u32, T>, tones: Seq<(u32, T)>, n: nat, i: int, k: u32)
    requires
        keys_distinct(tones),
        n <= tones.len(),
    ensures
        0 <= i < n ==> with_tones(m, tones, n).dom().contains(tones[i].0) && with_tones(
            m,
            tones,
            n,
        )[tones[i].0] == tones[i].1,
        (forall|j: int| 0 <= j < n ==> (#[trigger] tones[j]).0 != k) ==> with_tones(
            m,
            tones,
            n,
        ).dom().contains(k) == m.dom().contains(k) && with_tones(m, tones, n)[k] == m[k],
    decreases n,
{
    if n > 0 {
        law_tones_put_in(m, tones, (n - 1) as nat, i, k);
        if 0 <= i < n - 1 {
            assert(tones[i].0 != tones[n - 1].0);
        }
        assert(tones[n - 1].0 == tones[n - 1].0);
    }
}

/// Which tones join the others: only audible ones; the first one of a subband always, a later
/// one while there are fewer than fifteen and where it is at least 20 steps away from every
/// known tone.
pub proof fn law_accepted_tones<T: Copy>(t: ToneTracker<T>, sb: int, freq_index: u32, k: u32)
    ensures
        !t.accepts(sb, freq_index, false),
        t.subband_done@[sb] == 0 ==> t.accepts(sb, freq_index, true),
        t.subband_done@[sb] == 15 ==> !t.accepts(sb, freq_index, true),
        t.subband_done@[sb] > 0 && t.tones.map().dom().contains(k) && -20 < k - freq_index < 20
            ==> !t.accepts(sb, freq_index, true),
        0 < t.subband_done@[sb] < 15 && (forall|j: u32| #[trigger]
            t.tones.map().dom().contains(j) ==> j - freq_index >= 20 || freq_index - j >= 20)
            ==> t.accepts(sb, freq_index, true),
{
}

/// When adjusted tones are given up: after a failed adjustment, where two of them have come
/// to the same key, and where gapless tones that last to the end of the frame do not fit the
/// next one.
pub proof fn law_tones_given_up<T: Copy>(
    t: ToneTracker<T>,
    sb: int,
    adjusted: Seq<(u32, T)>,
    goes_on: bool,
    i: int,
)
    ensures
        t.gives_up(sb, false, adjusted, goes_on),
        0 < i < adjusted.len() && adjusted[i - 1].0 == adjusted[i].0 ==> t.gives_up(
            sb,
            true,
            adjusted,
            goes_on,
        ),
        t.gapless@[sb] && !goes_on && (t.envelopes@[sb].1 == 128 || t.envelopes@[sb].1 == 0xFFFF_FFFF)
            ==> t.gives_up(sb, true, adjusted, goes_on),
        keys_distinct(adjusted) && (goes_on || !t.gapless@[sb]) ==> !t.gives_up(
            sb,
            true,
            adjusted,
            goes_on,
        ),
{
    if keys_distinct(adjusted) {
        assert(!has_double(adjusted));
    }
}

} // verus!
