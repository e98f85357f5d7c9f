//! From the tones found in a frame to its tonal components.

use vstd::prelude::*;
use crate::at3p::gha::{At3PGhaData, WaveParam, WaveSbInfo};

verus! {

/// Number of subbands that are searched for tones.
pub const SUBBANDS: usize = 8;

/// Samples of a subband in a frame.
pub const SAMPLES_PER_SUBBAND: usize = 128;

/// A tone: its subband and frequency in one number, its quantised amplitude and
/// its quantised phase.
#[derive(Debug, Clone, Copy, PartialEq, Eq, Structural)]
pub struct ToneEntry {
    pub key: u32,
    pub amp_sf: u32,
    pub phase_index: u32,
}

impl ToneEntry {
    /// The subband of the tone.
    pub open spec fn band(&self) -> int {
        self.key as int / 1024
    }

    /// The wave that stands for the tone.
    pub open spec fn wave(&self) -> WaveParam {
        WaveParam {
            freq_index: (self.key % 1024) as u32,
            amp_sf: self.amp_sf,
            amp_index: 1,
            phase_index: self.phase_index,
        }
    }
}

/// The tones of one channel, by rising frequency, and for each subband where they
/// set in and end.
pub struct ChannelTones {
    pub tones: Vec<ToneEntry>,
    pub envelopes: [(u32, u32); 8],
}

impl ChannelTones {
    pub open spec fn wf(&self) -> bool {
        &&& forall|i: int, j: int|
            0 <= i < j < self.tones@.len() ==> (#[trigger] self.tones@[i]).key < (
            #[trigger] self.tones@[j]).key
        &&& forall|i: int| 0 <= i < self.tones@.len() ==> (#[trigger] self.tones@[i]).key < 8192
    }
}

/// Some tone lies in subband `sb`.
pub open spec fn has_band(tones: Seq<ToneEntry>, sb: int) -> bool {
    exists|i: int| 0 <= i < tones.len() && (#[trigger] tones[i]).band() == sb
}

/// From subband `sb` on the first one without tones.
pub open spec fn first_gap(tones: Seq<ToneEntry>, sb: int) -> int
    decreases 8 - sb,
{
    if sb >= 8 || !has_band(tones, sb) {
        sb
    } else {
        first_gap(tones, sb + 1)
    }
}

/// The number of subbands from the lowest one on that all have tones.
pub open spec fn used_bands(tones: Seq<ToneEntry>) -> int {
    first_gap(tones, 0)
}

/// The waves of the first `n` tones that lie in subband `sb`.
pub open spec fn band_waves_upto(tones: Seq<ToneEntry>, sb: int, n: nat) -> Seq<WaveParam>
    decreases n,
{
    if n == 0 {
        Seq::empty()
    } else {
        let before = band_waves_upto(tones, sb, (n - 1) as nat);
        if tones[n - 1].band() == sb {
            before.push(tones[n - 1].wave())
        } else {
            before
        }
    }
}

/// The waves of subband `sb`.
pub open spec fn band_waves(tones: Seq<ToneEntry>, sb: int) -> Seq<WaveParam> {
    band_waves_upto(tones, sb, tones.len())
}

/// A tone with the key of `t` is among `tones`.
pub open spec fn has_key(tones: Seq<ToneEntry>, key: u32) -> bool {
    exists|i: int| 0 <= i < tones.len() && (#[trigger] tones[i]).key == key
}

/// Every tone of the follower in subband `sb` is a tone of the leader too.
pub open spec fn all_shared(leader: Seq<ToneEntry>, follower: Seq<ToneEntry>, sb: int) -> bool {
    forall|i: int|
        0 <= i < follower.len() && (#[trigger] follower[i]).band() == sb ==> has_key(
            leader,
            follower[i].key,
        )
}

/// The follower takes its waves in subband `sb` from the leader.
pub open spec fn shares_band(leader: Seq<ToneEntry>, follower: Seq<ToneEntry>, sb: int) -> bool {
    has_band(follower, sb) && all_shared(leader, follower, sb)
}

/// The follower has waves of its own in subband `sb`.
pub open spec fn owns_band(leader: Seq<ToneEntry>, follower: Seq<ToneEntry>, sb: int) -> bool {
    has_band(follower, sb) && !all_shared(leader, follower, sb)
}

/// Where the waves of a subband ended in the frame before.
pub open spec fn past_stop(history: At3PGhaData, ch: int, sb: int) -> u32 {
    if sb < history.waves@[ch].wave_sb_infos@.len() {
        history.sb_info(ch, sb).envelope.1
    } else {
        At3PGhaData::INIT
    }
}

/// An envelope in samples that can be put on the grid of four samples.
pub open spec fn envelope_wf(src: (u32, u32), past: u32) -> bool {
    &&& src.0 == 0 && past == At3PGhaData::EMPTY_POINT || src.0 != At3PGhaData::EMPTY_POINT
    &&& src.1 == At3PGhaData::EMPTY_POINT || 1 <= src.1 <= 128
}

/// An envelope on the grid of four samples. Waves that go on from the frame
/// before have no start.
pub open spec fn grid_envelope(src: (u32, u32), past: u32) -> (u32, u32) {
    (
        if src.0 == 0 && past == At3PGhaData::EMPTY_POINT {
            At3PGhaData::EMPTY_POINT
        } else {
            src.0 / 4
        },
        if src.1 == At3PGhaData::EMPTY_POINT {
            src.1
        } else {
            ((src.1 - 1) / 4) as u32
        },
    )
}

pub fn adjust_envelope(src: (u32, u32), history: u32) -> (r: (u32, u32))
    requires
        envelope_wf(src, history),
    ensures
        r == grid_envelope(src, history),
{
    let first: u32 = if src.0 == 0 && history == At3PGhaData::EMPTY_POINT {
        At3PGhaData::EMPTY_POINT
    } else {
        src.0 / 4
    };
    let second: u32 = if src.1 == At3PGhaData::EMPTY_POINT {
        src.1
    } else {
        (src.1 - 1) / 4
    };
    (first, second)
}

/// The waves of the leader in the subbands below `n`.
pub open spec fn leader_waves(tones: Seq<ToneEntry>, n: nat) -> Seq<WaveParam>
    decreases n,
{
    if n == 0 {
        Seq::empty()
    } else {
        leader_waves(tones, (n - 1) as nat) + band_waves(tones, n - 1)
    }
}

/// The waves that the follower has of its own in the subbands below `n`.
pub open spec fn follower_waves(
    leader: Seq<ToneEntry>,
    follower: Seq<ToneEntry>,
    n: nat,
) -> Seq<WaveParam>
    decreases n,
{
    if n == 0 {
        Seq::empty()
    } else {
        follower_waves(leader, follower, (n - 1) as nat) + (if owns_band(leader, follower, n - 1) {
            band_waves(follower, n - 1)
        } else {
            Seq::empty()
        })
    }
}

/// Subband `sb` of the leader.
pub open spec fn leader_info(data: ChannelTones, history: At3PGhaData, sb: int) -> WaveSbInfo {
    WaveSbInfo {
        wave_index: leader_waves(data.tones@, sb as nat).len() as usize,
        wave_nums: band_waves(data.tones@, sb).len() as usize,
        envelope: grid_envelope(data.envelopes@[sb], past_stop(history, 0, sb)),
    }
}

/// Subband `sb` of the follower.
pub open spec fn follower_info(
    leader: ChannelTones,
    follower: ChannelTones,
    history: At3PGhaData,
    sb: int,
) -> WaveSbInfo {
    if owns_band(leader.tones@, follower.tones@, sb) {
        WaveSbInfo {
            wave_index: follower_waves(leader.tones@, follower.tones@, sb as nat).len() as usize,
            wave_nums: band_waves(follower.tones@, sb).len() as usize,
            envelope: grid_envelope(follower.envelopes@[sb], past_stop(history, 1, sb)),
        }
    } else {
        WaveSbInfo::empty()
    }
}

/// The channel whose tones reach further up leads; the first one where both
/// reach as far.
pub open spec fn leading_channel(data: Seq<ChannelTones>) -> int {
    if data.len() == 2 && used_bands(data[1].tones@) > used_bands(data[0].tones@) {
        1
    } else {
        0
    }
}

/// The envelopes that the result takes over can be put on the grid.
pub open spec fn envelopes_ready(data: Seq<ChannelTones>, history: At3PGhaData) -> bool {
    let leader = data[leading_channel(data)];
    let used = used_bands(leader.tones@);
    &&& forall|sb: int|
        0 <= sb < used ==> envelope_wf(
            #[trigger] leader.envelopes@[sb],
            past_stop(history, 0, sb),
        )
    &&& data.len() == 2 ==> {
        let follower = data[1 - leading_channel(data)];
        forall|sb: int|
            0 <= sb < used && owns_band(leader.tones@, follower.tones@, sb) ==> envelope_wf(
                #[trigger] follower.envelopes@[sb],
                past_stop(history, 1, sb),
            )
    }
}

/// Whether a subband has tones.
fn is_band_used(tones: &Vec<ToneEntry>, sb: u32) -> (r: bool)
    ensures
        r == has_band(tones@, sb as int),
{
    let mut i: usize = 0;
    while i < tones.len()
        invariant
            i <= tones@.len(),
            forall|j: int| 0 <= j < i ==> (#[trigger] tones@[j]).band() != sb,
        decreases tones@.len() - i,
    {
        if tones[i].key / 1024 == sb {
            assert(tones@[i as int].band() == sb);
            return true;
        }
        i += 1;
    }
    false
}

fn count_used_bands(tones: &Vec<ToneEntry>) -> (n: u32)
    ensures
        n == used_bands(tones@),
        n <= 8,
{
    let mut sb: u32 = 0;
    while sb < 8 && is_band_used(tones, sb)
        invariant
            sb <= 8,
            first_gap(tones@, 0) == first_gap(tones@, sb as int),
        decreases 8 - sb,
    {
        sb += 1;
    }
    sb
}

/// Appends the waves of a subband and returns their number.
fn push_band_waves(tones: &Vec<ToneEntry>, sb: u32, params: &mut Vec<WaveParam>) -> (n: usize)
    ensures
        final(params)@ == old(params)@ + band_waves(tones@, sb as int),
        n == band_waves(tones@, sb as int).len(),
{
    let ghost start = params@;
    let mut n: usize = 0;
    let mut i: usize = 0;
    assert(start + Seq::<WaveParam>::empty() =~= start);
    while i < tones.len()
        invariant
            i <= tones@.len(),
            n <= i,
            n == band_waves_upto(tones@, sb as int, i as nat).len(),
            params@ == start + band_waves_upto(tones@, sb as int, i as nat),
        decreases tones@.len() - i,
    {
        let t: ToneEntry = tones[i];
        if t.key / 1024 == sb {
            params.push(
                WaveParam {
                    freq_index: t.key % 1024,
                    amp_sf: t.amp_sf,
                    amp_index: 1,
                    phase_index: t.phase_index,
                },
            );
            n += 1;
        }
        assert(params@ =~= start + band_waves_upto(tones@, sb as int, (i + 1) as nat));
        i += 1;
    }
    n
}

fn contains_key(tones: &Vec<ToneEntry>, key: u32) -> (r: bool)
    ensures
        r == has_key(tones@, key),
{
    let mut i: usize = 0;
    while i < tones.len()
        invariant
            i <= tones@.len(),
            forall|j: int| 0 <= j < i ==> (#[trigger] tones@[j]).key != key,
        decreases tones@.len() - i,
    {
        if tones[i].key == key {
            return true;
        }
        i += 1;
    }
    false
}

fn is_all_shared(leader: &Vec<ToneEntry>, follower: &Vec<ToneEntry>, sb: u32) -> (r: bool)
    ensures
        r == all_shared(leader@, follower@, sb as int),
{
    let mut i: usize = 0;
    while i < follower.len()
        invariant
            i <= follower@.len(),
            forall|j: int|
                0 <= j < i && (#[trigger] follower@[j]).band() == sb ==> has_key(
                    leader@,
                    follower@[j].key,
                ),
        decreases follower@.len() - i,
    {
        if follower[i].key / 1024 == sb && !contains_key(leader, follower[i].key) {
            assert(follower@[i as int].band() == sb);
            return false;
        }
        i += 1;
    }
    true
}

fn history_stop(history: &At3PGhaData, ch: usize, sb: usize) -> (r: u32)
    requires
        ch < 2,
    ensures
        r == past_stop(*history, ch as int, sb as int),
{
    if sb < history.waves[ch].wave_sb_infos.len() {
        history.waves[ch].wave_sb_infos[sb].envelope.1
    } else {
        At3PGhaData::INIT
    }
}

fn envelope_fits(src: (u32, u32), past: u32) -> (r: bool)
    ensures
        r == envelope_wf(src, past),
{
    let starts: bool = src.0 == 0 && past == At3PGhaData::EMPTY_POINT || src.0
        != At3PGhaData::EMPTY_POINT;
    starts && (src.1 == At3PGhaData::EMPTY_POINT || 1 <= src.1 && src.1 <= 128)
}

/// Whether the envelopes that a result takes over can be put on the grid.
pub fn envelopes_fit(history: &At3PGhaData, data: &[ChannelTones]) -> (r: bool)
    requires
        1 <= data@.len() <= 2,
    ensures
        r == envelopes_ready(data@, *history),
{
    let stereo: bool = data.len() == 2;
    let mut lead: usize = 0;
    let mut used: u32 = count_used_bands(&data[0].tones);
    if stereo {
        let second: u32 = count_used_bands(&data[1].tones);
        if second > used {
            lead = 1;
            used = second;
        }
    }
    assert(lead == leading_channel(data@));
    let ghost leader = data@[lead as int];
    let mut sb: usize = 0;
    while sb < used as usize
        invariant
            sb <= used <= 8,
            lead == leading_channel(data@),
            leader == data@[lead as int],
            used == used_bands(leader.tones@),
            stereo == (data@.len() == 2),
            1 <= data@.len() <= 2,
            forall|b: int|
                0 <= b < sb ==> envelope_wf(
                    #[trigger] leader.envelopes@[b],
                    past_stop(*history, 0, b),
                ),
            stereo ==> forall|b: int|
                0 <= b < sb && owns_band(leader.tones@, data@[1 - lead].tones@, b) ==> envelope_wf(
                    #[trigger] data@[1 - lead].envelopes@[b],
                    past_stop(*history, 1, b),
                ),
        decreases used - sb,
    {
        if !envelope_fits(data[lead].envelopes[sb], history_stop(history, 0, sb)) {
            assert(!envelope_wf(leader.envelopes@[sb as int], past_stop(*history, 0, sb as int)));
            return false;
        }
        if stereo {
            let other: usize = 1 - lead;
            if is_band_used(&data[other].tones, sb as u32) && !is_all_shared(
                &data[lead].tones,
                &data[other].tones,
                sb as u32,
            ) && !envelope_fits(data[other].envelopes[sb], history_stop(history, 1, sb)) {
                assert(owns_band(leader.tones@, data@[1 - lead].tones@, sb as int));
                assert(!envelope_wf(
                    data@[1 - lead].envelopes@[sb as int],
                    past_stop(*history, 1, sb as int),
                ));
                return false;
            }
        }
        sb += 1;
    }
    true
}

/// `after` holds the tonal components that the tones make. Without a second
/// channel what is known of it stays as it was in `before`.
pub open spec fn is_filled(
    before: At3PGhaData,
    after: At3PGhaData,
    history: At3PGhaData,
    data: Seq<ChannelTones>,
) -> bool {
    let l = leading_channel(data);
    let leader = data[l];
    let used = used_bands(leader.tones@);
    &&& after.second_is_leader == (l == 1)
    &&& after.num_tone_bands == used
    &&& after.waves@[0].wave_params@ == leader_waves(leader.tones@, used as nat)
    &&& after.waves@[0].wave_sb_infos@ == Seq::new(
        used as nat,
        |sb: int| leader_info(leader, history, sb),
    )
    &&& if data.len() == 2 {
        let follower = data[1 - l];
        &&& after.waves@[1].wave_params@ == follower_waves(
            leader.tones@,
            follower.tones@,
            used as nat,
        )
        &&& after.waves@[1].wave_sb_infos@ == Seq::new(
            used as nat,
            |sb: int| follower_info(leader, follower, history, sb),
        )
        &&& after.tone_sharing@ == Seq::new(
            16,
            |sb: int|
                if sb < used {
                    shares_band(leader.tones@, follower.tones@, sb)
                } else {
                    before.tone_sharing@[sb]
                },
        )
    } else {
        &&& after.waves@[1] == before.waves@[1]
        &&& after.tone_sharing@ == before.tone_sharing@
    }
}

/// Turns the tones of one channel, or of two, into tonal components.
pub fn fill_result_buf(result: &mut At3PGhaData, history: &At3PGhaData, data: &[ChannelTones])
    requires
        1 <= data@.len() <= 2,
        forall|i: int| 0 <= i < data@.len() ==> (#[trigger] data@[i]).wf(),
        envelopes_ready(data@, *history),
    ensures
        is_filled(*old(result), *final(result), *history, data@),
{
    let ghost l = leading_channel(data@);
    let stereo: bool = data.len() == 2;
    let mut lead: usize = 0;
    let mut used: u32 = count_used_bands(&data[0].tones);
    if stereo {
        let second: u32 = count_used_bands(&data[1].tones);
        if second > used {
            lead = 1;
            used = second;
        }
    }
    assert(lead == l);
    let ghost leader = data@[l];
    result.second_is_leader = lead == 1;
    result.num_tone_bands = used as u8;
    result.waves[0].wave_params.clear();
    result.waves[0].wave_sb_infos.clear();
    if stereo {
        result.waves[1].wave_params.clear();
        result.waves[1].wave_sb_infos.clear();
    }
    let ghost infos0 = Seq::new(used as nat, |sb: int| leader_info(leader, *history, sb));
    let mut sb: usize = 0;
    assert(result.waves@[0].wave_sb_infos@ =~= infos0.take(0));
    while sb < used as usize
        invariant
            sb <= used <= 8,
            used == used_bands(leader.tones@),
            lead == l,
            l == leading_channel(data@),
            leader == data@[l],
            stereo == (data@.len() == 2),
            1 <= data@.len() <= 2,
            envelopes_ready(data@, *history),
            infos0 == Seq::new(used as nat, |sb: int| leader_info(leader, *history, sb)),
            result.second_is_leader == (l == 1),
            result.num_tone_bands == used,
            result.waves@[0].wave_params@ == leader_waves(leader.tones@, sb as nat),
            result.waves@[0].wave_sb_infos@ == infos0.take(sb as int),
            !stereo ==> result.waves@[1] == old(result).waves@[1] && result.tone_sharing@ == old(
                result,
            ).tone_sharing@,
            stereo ==> {
                let follower = data@[1 - l];
                &&& result.waves@[1].wave_params@ == follower_waves(
                    leader.tones@,
                    follower.tones@,
                    sb as nat,
                )
                &&& result.waves@[1].wave_sb_infos@ == Seq::new(
                    sb as nat,
                    |b: int| follower_info(leader, follower, *history, b),
                )
                &&& result.tone_sharing@ == Seq::new(
                    16,
                    |b: int|
                        if b < sb {
                            shares_band(leader.tones@, follower.tones@, b)
                        } else {
                            old(result).tone_sharing@[b]
                        },
                )
            },
        decreases used - sb,
    {
        assert(envelope_wf(leader.envelopes@[sb as int], past_stop(*history, 0, sb as int)));
        let wave_index: usize = result.waves[0].wave_params.len();
        let wave_nums: usize = push_band_waves(
            &data[lead].tones,
            sb as u32,
            &mut result.waves[0].wave_params,
        );
        let envelope: (u32, u32) = adjust_envelope(
            data[lead].envelopes[sb],
            history_stop(history, 0, sb),
        );
        result.waves[0].wave_sb_infos.push(WaveSbInfo { wave_index, wave_nums, envelope });
        assert(result.waves@[0].wave_sb_infos@ =~= infos0.take(sb + 1));
        if stereo {
            let ghost follower = data@[1 - l];
            let other: usize = 1 - lead;
            let shared: bool = is_all_shared(&data[lead].tones, &data[other].tones, sb as u32);
            let present: bool = is_band_used(&data[other].tones, sb as u32);
            if present && !shared {
                assert(owns_band(leader.tones@, follower.tones@, sb as int));
                assert(envelope_wf(
                    follower.envelopes@[sb as int],
                    past_stop(*history, 1, sb as int),
                ));
                let wave_index: usize = result.waves[1].wave_params.len();
                let wave_nums: usize = push_band_waves(
                    &data[other].tones,
                    sb as u32,
                    &mut result.waves[1].wave_params,
                );
                let envelope: (u32, u32) = adjust_envelope(
                    data[other].envelopes[sb],
                    history_stop(history, 1, sb),
                );
                result.waves[1].wave_sb_infos.push(WaveSbInfo { wave_index, wave_nums, envelope });
            } else {
                result.waves[1].wave_sb_infos.push(WaveSbInfo::default());
            }
            result.tone_sharing[sb] = present && shared;
            assert(result.waves@[1].wave_params@ =~= follower_waves(
                leader.tones@,
                follower.tones@,
                (sb + 1) as nat,
            ));
            assert(result.waves@[1].wave_sb_infos@ =~= Seq::new(
                (sb + 1) as nat,
                |b: int| follower_info(leader, follower, *history, b),
            ));
            assert(result.tone_sharing@ =~= Seq::new(
                16,
                |b: int|
                    if b < sb + 1 {
                        shares_band(leader.tones@, follower.tones@, b)
                    } else {
                        old(result).tone_sharing@[b]
                    },
            ));
        }
        sb += 1;
    }
    assert(infos0.take(used as int) =~= infos0);
}

proof fn lemma_band_waves_len(tones: Seq<ToneEntry>, sb: int, n: nat)
    ensures
        band_waves_upto(tones, sb, n).len() <= n,
    decreases n,
{
    if n > 0 {
        lemma_band_waves_len(tones, sb, (n - 1) as nat);
    }
}

proof fn lemma_tones_bound(d: ChannelTones, i: int)
    requires
        d.wf(),
        0 <= i < d.tones@.len(),
    ensures
        d.tones@[i].key >= i,
    decreases i,
{
    if i > 0 {
        lemma_tones_bound(d, i - 1);
        assert(d.tones@[i - 1].key < d.tones@[i].key);
    }
}

proof fn lemma_num_tones(d: ChannelTones)
    requires
        d.wf(),
    ensures
        d.tones@.len() <= 8192,
{
    if d.tones@.len() > 0 {
        lemma_tones_bound(d, d.tones@.len() - 1);
        assert(d.tones@[d.tones@.len() - 1].key < 8192);
    }
}

proof fn lemma_leader_waves(tones: Seq<ToneEntry>, k: nat, n: nat)
    requires
        k <= n,
    ensures
        leader_waves(tones, k).len() <= leader_waves(tones, n).len(),
        leader_waves(tones, n).len() <= n * tones.len(),
    decreases n,
{
    if n > 0 {
        if k < n {
            lemma_leader_waves(tones, k, (n - 1) as nat);
        } else {
            lemma_leader_waves(tones, (k - 1) as nat, (n - 1) as nat);
        }
        lemma_band_waves_len(tones, n - 1, tones.len());
        let l = tones.len();
        assert((n - 1) * l + l == n * l) by (nonlinear_arith);
    } else {
        assert(0 * tones.len() == 0);
    }
}

proof fn lemma_follower_waves(leader: Seq<ToneEntry>, follower: Seq<ToneEntry>, k: nat, n: nat)
    requires
        k <= n,
    ensures
        follower_waves(leader, follower, k).len() <= follower_waves(leader, follower, n).len(),
        follower_waves(leader, follower, n).len() <= n * follower.len(),
    decreases n,
{
    if n > 0 {
        if k < n {
            lemma_follower_waves(leader, follower, k, (n - 1) as nat);
        } else {
            lemma_follower_waves(leader, follower, (k - 1) as nat, (n - 1) as nat);
        }
        lemma_band_waves_len(follower, n - 1, follower.len());
        let l = follower.len();
        assert((n - 1) * l + l == n * l) by (nonlinear_arith);
    } else {
        assert(0 * follower.len() == 0);
    }
}

proof fn lemma_first_gap(tones: Seq<ToneEntry>, sb: int)
    requires
        0 <= sb <= 8,
    ensures
        sb <= first_gap(tones, sb) <= 8,
        forall|b: int| sb <= b < first_gap(tones, sb) ==> #[trigger] has_band(tones, b),
        first_gap(tones, sb) < 8 ==> !has_band(tones, first_gap(tones, sb)),
    decreases 8 - sb,
{
    if sb < 8 && has_band(tones, sb) {
        lemma_first_gap(tones, sb + 1);
    }
}

/// Every tone band has a wave of the leader.
pub proof fn law_every_tone_band_has_waves(data: ChannelTones, sb: int)
    requires
        data.wf(),
        0 <= sb < used_bands(data.tones@),
    ensures
        band_waves(data.tones@, sb).len() > 0,
{
    lemma_first_gap(data.tones@, 0);
    assert(has_band(data.tones@, sb));
    let i = choose|i: int| 0 <= i < data.tones@.len() && (#[trigger] data.tones@[i]).band() == sb;
    lemma_band_has(data.tones@, sb, data.tones@.len(), i);
}

proof fn lemma_band_has(tones: Seq<ToneEntry>, sb: int, n: nat, i: int)
    requires
        0 <= i < n,
        tones[i].band() == sb,
    ensures
        band_waves_upto(tones, sb, n).len() > 0,
    decreases n,
{
    if i < n - 1 {
        lemma_band_has(tones, sb, (n - 1) as nat, i);
    }
}

/// What the tones of a frame are turned into can be written as its tonal block.
pub proof fn law_filled_is_writable(
    before: At3PGhaData,
    after: At3PGhaData,
    history: At3PGhaData,
    data: Seq<ChannelTones>,
)
    requires
        1 <= data.len() <= 2,
        forall|i: int| 0 <= i < data.len() ==> (#[trigger] data[i]).wf(),
        is_filled(before, after, history, data),
        after.num_tone_bands >= 1,
    ensures
        crate::at3p::tonal::gha_wf(after, data.len() as int),
{
    let l = leading_channel(data);
    let leader = data[l];
    let used = used_bands(leader.tones@);
    lemma_first_gap(leader.tones@, 0);
    lemma_num_tones(leader);
    lemma_leader_waves(leader.tones@, used as nat, used as nat);
    let count = leader.tones@.len() as int;
    assert(used * count <= 65536) by (nonlinear_arith)
        requires
            0 <= used <= 8,
            0 <= count <= 8192,
    ;
    assert forall|ch: int, i: int|
        0 <= ch < data.len() && 0 <= i < after.num_tone_bands
            && #[trigger] crate::at3p::tonal::own_band(after, ch, i) implies {
        &&& i < after.waves@[ch].wave_sb_infos@.len()
        &&& after.sb_info(ch, i).wave_nums <= 0x0CCC_CCCC
        &&& after.sb_info(ch, i).wave_nums > 0 ==> after.sb_info(ch, i).wave_index + after.sb_info(
            ch,
            i,
        ).wave_nums <= after.waves@[ch].wave_params@.len()
    } by {
        if ch == 0 {
            lemma_band_waves_len(leader.tones@, i, leader.tones@.len());
            lemma_leader_waves(leader.tones@, i as nat, used as nat);
            lemma_leader_waves(leader.tones@, (i + 1) as nat, used as nat);
        } else {
            let follower = data[1 - l];
            lemma_num_tones(follower);
            lemma_band_waves_len(follower.tones@, i, follower.tones@.len());
            lemma_follower_waves(leader.tones@, follower.tones@, i as nat, used as nat);
            lemma_follower_waves(leader.tones@, follower.tones@, (i + 1) as nat, used as nat);
            let fl = follower.tones@.len() as int;
            assert(used * fl <= 65536) by (nonlinear_arith)
                requires
                    0 <= used <= 8,
                    0 <= fl <= 8192,
            ;
        }
    }
}

/// How many of the first `m` tones lie in the subbands below `n`.
spec fn tones_below(tones: Seq<ToneEntry>, n: nat, m: nat) -> nat
    decreases n,
{
    if n == 0 {
        0
    } else {
        tones_below(tones, (n - 1) as nat, m) + band_waves_upto(tones, n - 1, m).len()
    }
}

proof fn lemma_tones_below_step(tones: Seq<ToneEntry>, n: nat, m: nat)
    ensures
        tones_below(tones, n, m + 1) == tones_below(tones, n, m) + (if tones[m as int].band() < n {
            1nat
        } else {
            0nat
        }),
    decreases n,
{
    if n > 0 {
        lemma_tones_below_step(tones, (n - 1) as nat, m);
    } else {
        assert(tones[m as int].band() >= 0);
    }
}

proof fn lemma_tones_below(tones: Seq<ToneEntry>, n: nat, m: nat)
    ensures
        tones_below(tones, n, m) <= m,
    decreases m,
{
    if m > 0 {
        lemma_tones_below(tones, n, (m - 1) as nat);
        lemma_tones_below_step(tones, n, (m - 1) as nat);
    } else {
        lemma_tones_below_none(tones, n);
    }
}

proof fn lemma_tones_below_none(tones: Seq<ToneEntry>, n: nat)
    ensures
        tones_below(tones, n, 0) == 0,
    decreases n,
{
    if n > 0 {
        lemma_tones_below_none(tones, (n - 1) as nat);
    }
}

proof fn lemma_wave_counts(leader: Seq<ToneEntry>, follower: Seq<ToneEntry>, n: nat)
    ensures
        leader_waves(leader, n).len() == tones_below(leader, n, leader.len()),
        follower_waves(leader, follower, n).len() <= tones_below(follower, n, follower.len()),
    decreases n,
{
    if n > 0 {
        lemma_wave_counts(leader, follower, (n - 1) as nat);
    }
}

proof fn lemma_loaded_counts(
    before: At3PGhaData,
    after: At3PGhaData,
    history: At3PGhaData,
    data: Seq<ChannelTones>,
    n: nat,
)
    requires
        1 <= data.len() <= 2,
        forall|i: int| 0 <= i < data.len() ==> (#[trigger] data[i]).wf(),
        is_filled(before, after, history, data),
        n <= used_bands(data[leading_channel(data)].tones@),
    ensures
        ({
            let l = leading_channel(data);
            &&& crate::at3p::ff_dsp::channel_waves(after, 0, n).len() == leader_waves(
                data[l].tones@,
                n,
            ).len()
            &&& data.len() == 2 ==> crate::at3p::ff_dsp::channel_waves(after, 1, n).len()
                == follower_waves(data[l].tones@, data[1 - l].tones@, n).len()
        }),
    decreases n,
{
    if n > 0 {
        lemma_loaded_counts(before, after, history, data, (n - 1) as nat);
        let l = leading_channel(data);
        let leader = data[l];
        let used = used_bands(leader.tones@);
        lemma_first_gap(leader.tones@, 0);
        lemma_num_tones(leader);
        lemma_band_waves_len(leader.tones@, n - 1, leader.tones@.len());
        lemma_leader_waves(leader.tones@, n, used as nat);
        lemma_wave_counts(leader.tones@, leader.tones@, used as nat);
        lemma_tones_below(leader.tones@, used as nat, leader.tones@.len());
        if data.len() == 2 {
            let follower = data[1 - l];
            lemma_num_tones(follower);
            lemma_band_waves_len(follower.tones@, n - 1, follower.tones@.len());
            lemma_follower_waves(leader.tones@, follower.tones@, n, used as nat);
            lemma_wave_counts(leader.tones@, follower.tones@, used as nat);
            lemma_tones_below(follower.tones@, used as nat, follower.tones@.len());
        }
    }
}

/// What at most 48 tones are turned into can be synthesised.
pub proof fn law_filled_can_be_loaded(
    before: At3PGhaData,
    after: At3PGhaData,
    history: At3PGhaData,
    data: Seq<ChannelTones>,
)
    requires
        1 <= data.len() <= 2,
        forall|i: int| 0 <= i < data.len() ==> (#[trigger] data[i]).wf(),
        is_filled(before, after, history, data),
        data.len() == 2 ==> data[0].tones@.len() + data[1].tones@.len() <= 48,
        data.len() == 1 ==> data[0].tones@.len() <= 48,
    ensures
        crate::at3p::ff_dsp::synth_wf(after, data.len() as int),
{
    let l = leading_channel(data);
    let leader = data[l];
    let used = used_bands(leader.tones@);
    lemma_first_gap(leader.tones@, 0);
    lemma_loaded_counts(before, after, history, data, used as nat);
    lemma_tones_below(leader.tones@, used as nat, leader.tones@.len());
    lemma_wave_counts(leader.tones@, leader.tones@, used as nat);
    if data.len() == 2 {
        let follower = data[1 - l];
        lemma_wave_counts(leader.tones@, follower.tones@, used as nat);
        lemma_tones_below(follower.tones@, used as nat, follower.tones@.len());
    }
    assert forall|ch: int, sb: int|
        0 <= ch < data.len() && 0 <= sb < after.num_tone_bands implies {
        &&& sb < after.waves@[ch].wave_sb_infos@.len()
        &&& (#[trigger] after.sb_info(ch, sb)).wave_index + after.sb_info(ch, sb).wave_nums
            <= after.waves@[ch].wave_params@.len()
        &&& ch != 0 && after.tone_sharing@[sb] ==> after.sb_info(ch, sb).wave_nums == 0
    } by {
        lemma_leader_waves(leader.tones@, sb as nat, used as nat);
        lemma_leader_waves(leader.tones@, (sb + 1) as nat, used as nat);
        lemma_band_waves_len(leader.tones@, sb, leader.tones@.len());
        if ch == 1 {
            let follower = data[1 - l];
            lemma_follower_waves(leader.tones@, follower.tones@, sb as nat, used as nat);
            lemma_follower_waves(leader.tones@, follower.tones@, (sb + 1) as nat, used as nat);
            lemma_band_waves_len(follower.tones@, sb, follower.tones@.len());
        }
    }
}

/// The used subbands are those from the lowest one on up to the first without tones.
pub proof fn law_used_bands(tones: Seq<ToneEntry>, from: int, sb: int)
    requires
        0 <= from <= 8,
    ensures
        from <= first_gap(tones, from) <= 8,
        from <= sb < first_gap(tones, from) ==> exists|i: int|
            0 <= i < tones.len() && (#[trigger] tones[i]).key / 1024 == sb,
        first_gap(tones, from) < 8 ==> !(exists|i: int|
            0 <= i < tones.len() && (#[trigger] tones[i]).key / 1024 == first_gap(tones, from)),
    decreases 8 - from,
{
    if from < 8 {
        if has_band(tones, from) {
            law_used_bands(tones, from + 1, sb);
            let i = choose|i: int| 0 <= i < tones.len() && (#[trigger] tones[i]).band() == from;
            assert(tones[i].key / 1024 == from);
        } else {
            assert forall|i: int| 0 <= i < tones.len() implies (#[trigger] tones[i]).key / 1024
                != from by {
                assert(tones[i].band() != from);
            }
        }
    }
}

/// How many of the first `n` tones lie in subband `sb`.
pub open spec fn tones_in(tones: Seq<ToneEntry>, sb: int, n: nat) -> nat
    decreases n,
{
    if n == 0 {
        0
    } else {
        tones_in(tones, sb, (n - 1) as nat) + (if tones[n - 1].key / 1024 == sb {
            1nat
        } else {
            0
        })
    }
}

proof fn lemma_tones_in(tones: Seq<ToneEntry>, sb: int, m: nat, n: nat)
    requires
        m < n,
        tones[m as int].key / 1024 == sb,
    ensures
        tones_in(tones, sb, m) < tones_in(tones, sb, n),
    decreases n,
{
    if m + 1 < n {
        lemma_tones_in(tones, sb, m, (n - 1) as nat);
    }
}

/// A subband has one wave for each of its tones, in their order: the frequency within the
/// subband, the amplitude and the phase of just that tone.
pub proof fn law_band_waves(tones: Seq<ToneEntry>, sb: int, n: nat, i: int)
    ensures
        band_waves_upto(tones, sb, n).len() == tones_in(tones, sb, n),
        0 <= i < n && tones[i].key / 1024 == sb ==> {
            let k = tones_in(tones, sb, i as nat) as int;
            let w = band_waves_upto(tones, sb, n)[k];
            &&& k < tones_in(tones, sb, n)
            &&& w.freq_index == tones[i].key % 1024
            &&& w.amp_sf == tones[i].amp_sf
            &&& w.phase_index == tones[i].phase_index
            &&& w.amp_index == 1
        },
    decreases n,
{
    if n > 0 {
        law_band_waves(tones, sb, (n - 1) as nat, i);
        if 0 <= i < n && tones[i].key / 1024 == sb {
            lemma_tones_in(tones, sb, i as nat, n);
        }
    }
}

/// The channel that leads reaches at least as far up as the other; the first one leads
/// where they reach as far, and where it is alone.
pub proof fn law_leader_reaches_further(data: Seq<ChannelTones>)
    requires
        1 <= data.len() <= 2,
    ensures
        data.len() == 1 ==> leading_channel(data) == 0,
        data.len() == 2 ==> {
            let a = used_bands(data[0].tones@);
            let b = used_bands(data[1].tones@);
            &&& a >= b ==> leading_channel(data) == 0
            &&& a < b ==> leading_channel(data) == 1
        },
{
}

/// An envelope on the grid: the step that its first sample lies in, the step of its last
/// one; no start where tones without an end go on from the first sample, and no end where
/// there is none.
pub proof fn law_grid_envelope(src: (u32, u32), past: u32)
    requires
        envelope_wf(src, past),
    ensures
        ({
            let e = grid_envelope(src, past);
            &&& src.0 == 0 && past == 0xFFFF_FFFF ==> e.0 == 0xFFFF_FFFF
            &&& !(src.0 == 0 && past == 0xFFFF_FFFF) ==> 4 * e.0 <= src.0 < 4 * e.0 + 4
            &&& src.1 == 0xFFFF_FFFF ==> e.1 == 0xFFFF_FFFF
            &&& src.1 != 0xFFFF_FFFF ==> 4 * e.1 < src.1 <= 4 * e.1 + 4
        }),
{
}

proof fn lemma_leader_slice(tones: Seq<ToneEntry>, n: nat, sb: int)
    requires
        0 <= sb < n,
    ensures
        ({
            let at = leader_waves(tones, sb as nat).len() as int;
            let own = band_waves(tones, sb);
            let all = leader_waves(tones, n);
            &&& at + own.len() <= all.len()
            &&& all.subrange(at, at + own.len()) == own
        }),
    decreases n,
{
    let all = leader_waves(tones, n);
    let before = leader_waves(tones, (n - 1) as nat);
    let at = leader_waves(tones, sb as nat).len() as int;
    let own = band_waves(tones, sb);
    if sb < n - 1 {
        lemma_leader_slice(tones, (n - 1) as nat, sb);
        assert(all.subrange(at, at + own.len()) =~= before.subrange(at, at + own.len()));
    } else {
        assert(all.subrange(at, at + own.len()) =~= own);
    }
}

proof fn lemma_follower_slice(leader: Seq<ToneEntry>, tones: Seq<ToneEntry>, n: nat, sb: int)
    requires
        0 <= sb < n,
        owns_band(leader, tones, sb),
    ensures
        ({
            let at = follower_waves(leader, tones, sb as nat).len() as int;
            let own = band_waves(tones, sb);
            let all = follower_waves(leader, tones, n);
            &&& at + own.len() <= all.len()
            &&& all.subrange(at, at + own.len()) == own
        }),
    decreases n,
{
    let all = follower_waves(leader, tones, n);
    let before = follower_waves(leader, tones, (n - 1) as nat);
    let at = follower_waves(leader, tones, sb as nat).len() as int;
    let own = band_waves(tones, sb);
    if sb < n - 1 {
        lemma_follower_slice(leader, tones, (n - 1) as nat, sb);
        assert(all.subrange(at, at + own.len()) =~= before.subrange(at, at + own.len()));
    } else {
        assert(all.subrange(at, at + own.len()) =~= own);
    }
}

/// What the tones of a frame are turned into gives them back: in every tone band the first
/// channel has just the waves of the leader, and its envelope against its own past. A band
/// is shared just where the follower has tones there and each of them is one of the
/// leader; where the follower has others, the second channel has just its waves, with its
/// envelope; elsewhere it has none.
pub proof fn law_filled_has_tones(
    before: At3PGhaData,
    after: At3PGhaData,
    history: At3PGhaData,
    data: Seq<ChannelTones>,
    sb: int,
)
    requires
        1 <= data.len() <= 2,
        is_filled(before, after, history, data),
        0 <= sb < after.num_tone_bands,
        leader_waves(
            data[leading_channel(data)].tones@,
            after.num_tone_bands as nat,
        ).len() <= usize::MAX,
        data.len() == 2 ==> follower_waves(
            data[leading_channel(data)].tones@,
            data[1 - leading_channel(data)].tones@,
            after.num_tone_bands as nat,
        ).len() <= usize::MAX,
    ensures
        ({
            let leader = data[leading_channel(data)];
            &&& after.second_is_leader == (leading_channel(data) == 1)
            &&& after.sb_waves(0, sb) == band_waves(leader.tones@, sb)
            &&& after.sb_info(0, sb).envelope == grid_envelope(
                leader.envelopes@[sb],
                past_stop(history, 0, sb),
            )
            &&& data.len() == 2 ==> {
                let follower = data[1 - leading_channel(data)];
                let any = exists|i: int|
                    0 <= i < follower.tones@.len() && (#[trigger] follower.tones@[i]).key / 1024
                        == sb;
                let other = exists|i: int|
                    0 <= i < follower.tones@.len() && (#[trigger] follower.tones@[i]).key / 1024
                        == sb && !has_key(leader.tones@, follower.tones@[i].key);
                &&& after.tone_sharing@[sb] == (any && !other)
                &&& other ==> after.sb_waves(1, sb) == band_waves(follower.tones@, sb)
                    && after.sb_info(1, sb).envelope == grid_envelope(
                    follower.envelopes@[sb],
                    past_stop(history, 1, sb),
                )
                &&& !other ==> after.sb_info(1, sb).wave_nums == 0
            }
        }),
{
    let leader = data[leading_channel(data)];
    let n = after.num_tone_bands as nat;
    lemma_used_small(leader.tones@, 0);
    lemma_leader_slice(leader.tones@, n, sb);
    if data.len() == 2 {
        let follower = data[1 - leading_channel(data)];
        lemma_owned(leader.tones@, follower.tones@, sb);
        if owns_band(leader.tones@, follower.tones@, sb) {
            lemma_follower_slice(leader.tones@, follower.tones@, n, sb);
        }
    }
}

proof fn lemma_used_small(tones: Seq<ToneEntry>, from: int)
    requires
        0 <= from <= 8,
    ensures
        from <= first_gap(tones, from) <= 8,
    decreases 8 - from,
{
    if from < 8 && has_band(tones, from) {
        lemma_used_small(tones, from + 1);
    }
}

proof fn lemma_owned(leader: Seq<ToneEntry>, follower: Seq<ToneEntry>, sb: int)
    ensures
        ({
            let any = exists|i: int|
                0 <= i < follower.len() && (#[trigger] follower[i]).key / 1024 == sb;
            let other = exists|i: int|
                0 <= i < follower.len() && (#[trigger] follower[i]).key / 1024 == sb && !has_key(
                    leader,
                    follower[i].key,
                );
            &&& shares_band(leader, follower, sb) == (any && !other)
            &&& owns_band(leader, follower, sb) == other
        }),
{
    if exists|i: int| 0 <= i < follower.len() && (#[trigger] follower[i]).key / 1024 == sb {
        let i = choose|i: int| 0 <= i < follower.len() && (#[trigger] follower[i]).key / 1024 == sb;
        assert(follower[i].band() == sb);
    }
    if has_band(follower, sb) {
        let i = choose|i: int| 0 <= i < follower.len() && (#[trigger] follower[i]).band() == sb;
        assert(follower[i].key / 1024 == sb);
    }
    if !all_shared(leader, follower, sb) {
        let i = choose|i: int|
            0 <= i < follower.len() && (#[trigger] follower[i]).band() == sb && !has_key(
                leader,
                follower[i].key,
            );
        assert(follower[i].key / 1024 == sb);
    } else {
        assert forall|i: int|
            0 <= i < follower.len() && (#[trigger] follower[i]).key / 1024 == sb implies has_key(
            leader,
            follower[i].key,
        ) by {
            assert(follower[i].band() == sb);
        }
    }
}

} // verus!
