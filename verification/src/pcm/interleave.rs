//! Channels within interleaved samples.

use vstd::prelude::*;

verus! {

/// Channel `channel` of the first `n` frames.
pub open spec fn channel_samples<T>(data: Seq<T>, channels: int, channel: int, n: nat) -> Seq<T> {
    Seq::new(n, |i: int| data[i * channels + channel])
}

/// `data` with channel `channel` of the first `n` frames replaced.
pub open spec fn with_channel<T>(
    data: Seq<T>,
    channels: int,
    channel: int,
    samples: Seq<T>,
    n: nat,
) -> Seq<T> {
    Seq::new(
        data.len(),
        |j: int|
            if j % channels == channel && j / channels < n {
                samples[j / channels]
            } else {
                data[j]
            },
    )
}

proof fn lemma_in_range(i: int, n: int, channels: int, channel: int, len: int)
    requires
        0 <= i < n,
        0 <= channel < channels,
        n * channels <= len,
    ensures
        0 <= i * channels + channel < len,
        (i * channels + channel) / channels == i,
        (i * channels + channel) % channels == channel,
{
    assert(i * channels + channels <= n * channels && i * channels >= 0) by (nonlinear_arith)
        requires
            0 <= i < n,
            channels > 0,
    ;
    vstd::arithmetic::div_mod::lemma_fundamental_div_mod_converse(
        i * channels + channel,
        channels,
        i,
        channel,
    );
}

/// Takes one channel out of the first `n` frames.
pub fn deinterleave<T: Copy>(data: &[T], channels: usize, channel: usize, n: usize) -> (out: Vec<T>)
    requires
        channel < channels,
        n * channels <= data@.len(),
    ensures
        out@ == channel_samples(data@, channels as int, channel as int, n as nat),
{
    let mut out: Vec<T> = Vec::new();
    let mut i: usize = 0;
    while i < n
        invariant
            i <= n,
            channel < channels,
            n * channels <= data@.len(),
            out@ == channel_samples(data@, channels as int, channel as int, i as nat),
        decreases n - i,
    {
        proof {
            assert(data@.len() == data.len());
            lemma_in_range(i as int, n as int, channels as int, channel as int, data@.len() as int);
        }
        assert(i * channels >= 0) by (nonlinear_arith);
        out.push(data[i * channels + channel]);
        i += 1;
        assert(out@ =~= channel_samples(data@, channels as int, channel as int, i as nat));
    }
    out
}

/// Puts one channel into the first `n` frames.
pub fn interleave<T: Copy>(
    data: &mut [T],
    channels: usize,
    channel: usize,
    samples: &[T],
    n: usize,
)
    requires
        channel < channels,
        n * channels <= old(data)@.len(),
        n <= samples@.len(),
    ensures
        final(data)@ == with_channel(
            old(data)@,
            channels as int,
            channel as int,
            samples@,
            n as nat,
        ),
{
    let ghost before = data@;
    let mut i: usize = 0;
    assert(data@ =~= with_channel(before, channels as int, channel as int, samples@, 0)) by {
        assert forall|j: int| 0 <= j < before.len() implies #[trigger] (j
            / (channels as int)) >= 0 by {
            vstd::arithmetic::div_mod::lemma_div_pos_is_pos(j, channels as int);
        }
    }
    while i < n
        invariant
            i <= n,
            channel < channels,
            n * channels <= before.len(),
            n <= samples@.len(),
            data@.len() == before.len(),
            data@ == with_channel(
                before,
                channels as int,
                channel as int,
                samples@,
                i as nat,
            ),
        decreases n - i,
    {
        proof {
            assert(data@.len() == data.len());
            lemma_in_range(i as int, n as int, channels as int, channel as int, before.len() as int);
        }
        assert(i * channels >= 0) by (nonlinear_arith);
        let at: usize = i * channels + channel;
        data[at] = samples[i];
        proof {
            assert forall|j: int| 0 <= j < before.len() implies data@[j] == with_channel(
                before,
                channels as int,
                channel as int,
                samples@,
                (i + 1) as nat,
            )[j] by {
                vstd::arithmetic::div_mod::lemma_fundamental_div_mod(j, channels as int);
                let c = channels as int;
                if j % c == channel && j / c == i {
                    assert(c * (j / c) == (j / c) * c) by (nonlinear_arith);
                }
            }
        }
        i += 1;
        assert(data@ =~= with_channel(
            before,
            channels as int,
            channel as int,
            samples@,
            i as nat,
        ));
    }
}

/// A channel that was put into frames is what is taken out of them, and the other
/// channels are as before.
pub proof fn law_interleave_round_trip<T>(
    data: Seq<T>,
    channels: int,
    channel: int,
    other: int,
    samples: Seq<T>,
    n: nat,
)
    requires
        0 <= channel < channels,
        0 <= other < channels,
        n * channels <= data.len(),
        n <= samples.len(),
    ensures
        channel_samples(with_channel(data, channels, channel, samples, n), channels, channel, n)
            == samples.take(n as int),
        other != channel ==> channel_samples(
            with_channel(data, channels, channel, samples, n),
            channels,
            other,
            n,
        ) == channel_samples(data, channels, other, n),
{
    let d = with_channel(data, channels, channel, samples, n);
    assert forall|i: int| 0 <= i < n implies channel_samples(d, channels, channel, n)[i]
        == samples[i] by {
        lemma_in_range(i, n as int, channels, channel, data.len() as int);
    }
    assert(channel_samples(d, channels, channel, n) =~= samples.take(n as int));
    if other != channel {
        assert forall|i: int| 0 <= i < n implies channel_samples(d, channels, other, n)[i]
            == channel_samples(data, channels, other, n)[i] by {
            lemma_in_range(i, n as int, channels, other, data.len() as int);
        }
        assert(channel_samples(d, channels, other, n) =~= channel_samples(
            data,
            channels,
            other,
            n,
        ));
    }
}

/// Samples of one frame stand side by side, by channel: what is taken out of frame `i` is the
/// sample of the channel in it, and what is put in takes just its place.
pub proof fn law_frames_side_by_side<T>(
    data: Seq<T>,
    channels: int,
    channel: int,
    samples: Seq<T>,
    n: nat,
    i: int,
    j: int,
)
    requires
        0 <= channel < channels,
        n * channels <= data.len(),
        0 <= i < n,
        0 <= j < data.len(),
    ensures
        channel_samples(data, channels, channel, n)[i] == data[i * channels + channel],
        with_channel(data, channels, channel, samples, n).len() == data.len(),
        with_channel(data, channels, channel, samples, n)[i * channels + channel] == samples[i],
        j % channels != channel ==> with_channel(data, channels, channel, samples, n)[j] == data[j],
        j >= n * channels ==> with_channel(data, channels, channel, samples, n)[j] == data[j],
{
    lemma_in_range(i, n as int, channels, channel, data.len() as int);
    if j >= n * channels {
        vstd::arithmetic::div_mod::lemma_div_is_ordered(n * channels, j, channels);
        vstd::arithmetic::div_mod::lemma_div_by_multiple(n as int, channels);
    }
}

} // verus!
