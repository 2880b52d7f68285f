use std::sync::atomic::{AtomicU32, AtomicU8};
use crate::types::AUDIO_UNIT_SIZE;
use std::sync::Arc;
use vstd::prelude::*;

verus! {

/// Monitor for audio thread performance.
///
/// It tracks the number of late callbacks and the current CPU load percentage
/// of the audio processing thread.
#[derive(Clone)]
pub struct PerformanceMonitor {
    /// Number of times the audio thread failed to meet the real-time deadline.
    pub late_callbacks: Arc<AtomicU32>,
    /// Current CPU load of the audio processing thread in percentage (0-100).
    pub current_load_percent: Arc<AtomicU8>,
}

impl Default for PerformanceMonitor {
    fn default() -> Self {
        PerformanceMonitor {
            late_callbacks: Arc::new(AtomicU32::new(0)),
            current_load_percent: Arc::new(AtomicU8::new(0)),
        }
    }
}

/// Where the output stream callback takes each device frame from: the
/// position in the current audio unit, and whether a new unit must be pulled
/// from the graph first.
pub struct FrameCursor {
    unit_frame_index: usize,
}

impl FrameCursor {
    /// Position of the next frame in the current unit; `AUDIO_UNIT_SIZE` when
    /// the unit is used up (or none was pulled yet).
    pub closed spec fn position(&self) -> nat {
        self.unit_frame_index as nat
    }

    /// A cursor before the first frame: the first call pulls a unit.
    pub fn new() -> (c: Self)
        ensures
            c.position() == AUDIO_UNIT_SIZE,
    {
        FrameCursor { unit_frame_index: AUDIO_UNIT_SIZE }
    }

    /// Advances to the next device frame: returns whether a new unit must be
    /// pulled first, and the index of the frame in the (possibly new) unit.
    pub fn next_frame(&mut self) -> (r: (bool, usize))
        ensures
            r.0 == (old(self).position() >= AUDIO_UNIT_SIZE),
            r.1 == if r.0 {
                0
            } else {
                old(self).position()
            },
            r.1 < AUDIO_UNIT_SIZE,
            final(self).position() == r.1 + 1,
    {
        let pull = self.unit_frame_index >= AUDIO_UNIT_SIZE;
        if pull {
            self.unit_frame_index = 0;
        }
        let index = self.unit_frame_index;
        self.unit_frame_index = index + 1;
        (pull, index)
    }
}

/// The cursor position after `k` device frames of a stream.
pub open spec fn position_after(k: nat) -> nat {
    if k == 0 {
        AUDIO_UNIT_SIZE as nat
    } else {
        (((k - 1) as nat) % (AUDIO_UNIT_SIZE as nat)) + 1
    }
}

/// Law: a fresh cursor, advanced once per device frame, pulls a new unit
/// exactly at frames `k` that are multiples of `AUDIO_UNIT_SIZE`, and plays
/// frame `k % AUDIO_UNIT_SIZE` of the current unit at frame `k`: with the
/// contract of `next_frame`, from `position_after(k)` it returns
/// `(k % AUDIO_UNIT_SIZE == 0, k % AUDIO_UNIT_SIZE)` and moves to `position_after(k + 1)`.
pub proof fn lemma_cursor_step(k: nat)
    ensures
        position_after(k) <= AUDIO_UNIT_SIZE,
        (position_after(k) == AUDIO_UNIT_SIZE) == (k % (AUDIO_UNIT_SIZE as nat) == 0),
        (if position_after(k) == AUDIO_UNIT_SIZE {
            0
        } else {
            position_after(k)
        }) == k % (AUDIO_UNIT_SIZE as nat),
        k % (AUDIO_UNIT_SIZE as nat) + 1 == position_after(k + 1),
{
    if k > 0 {
        let q = ((k - 1) as nat) % 64;
        assert(k % 64 == (if q + 1 == 64 { 0 } else { q + 1 })) by (nonlinear_arith)
            requires
                k > 0,
                q == ((k - 1) as nat) % 64,
        ;
    }
}

/// A cursor after `m` device frames, each taken with `next_frame`: how many
/// units it has had pulled, and its position.
pub open spec fn cursor_after(m: nat) -> (nat, nat)
    decreases m,
{
    if m == 0 {
        (0, AUDIO_UNIT_SIZE as nat)
    } else {
        let (pulls, pos) = cursor_after((m - 1) as nat);
        if pos >= AUDIO_UNIT_SIZE {
            (pulls + 1, 1)
        } else {
            (pulls, pos + 1)
        }
    }
}

/// Device frame `m` of a stream (counted from 0 across all callbacks) as
/// `next_frame` places it: the number of the unit it comes from (the first
/// pulled unit is 1) and its index in that unit.
pub open spec fn frame_played(m: nat) -> (nat, nat) {
    let (pulls, pos) = cursor_after(m);
    if pos >= AUDIO_UNIT_SIZE {
        (pulls + 1, 0)
    } else {
        (pulls, pos)
    }
}

/// Law: over a whole stream, whatever the sizes of the device buffers, a
/// cursor made by `new` and advanced with `next_frame` once per device frame
/// plays device frame `m` from sample `m % AUDIO_UNIT_SIZE` of the unit
/// pulled `m / AUDIO_UNIT_SIZE + 1`-th: one unit is pulled every
/// `AUDIO_UNIT_SIZE` frames and no sample is skipped or repeated.
pub proof fn lemma_stream_frames(m: nat)
    ensures
        cursor_after(m).1 == position_after(m),
        cursor_after(m).0 == ((m + AUDIO_UNIT_SIZE - 1) as nat) / (AUDIO_UNIT_SIZE as nat),
        frame_played(m) == (m / (AUDIO_UNIT_SIZE as nat) + 1, m % (AUDIO_UNIT_SIZE as nat)),
    decreases m,
{
    lemma_cursor_step(m);
    if m > 0 {
        lemma_stream_frames((m - 1) as nat);
        lemma_cursor_step((m - 1) as nat);
        let k = (m - 1) as nat;
        assert((k + 63) / 64 + (if k % 64 == 0 { 1int } else { 0int }) == (m + 63) / 64) by (nonlinear_arith)
            requires
                m == k + 1,
        ;
    }
    assert((m + 63) / 64 + (if m % 64 == 0 { 1int } else { 0int }) == m / 64 + 1) by (nonlinear_arith);
}

/// What a device channel of an output frame carries.
#[derive(Debug, Clone, Copy, PartialEq, Eq, Structural)]
pub enum ChannelSource {
    /// The left sample of the stereo frame.
    Left,
    /// The right sample of the stereo frame.
    Right,
    /// The average of the left and right samples.
    MonoMix,
    /// Silence.
    Silence,
}

/// The stereo-to-device channel mapping: stereo on the first two channels and
/// silence on the others, or the average of both on a single channel.
pub open spec fn channel_source_spec(channels: nat, c: nat) -> ChannelSource {
    if channels == 1 {
        ChannelSource::MonoMix
    } else if c == 0 {
        ChannelSource::Left
    } else if c == 1 {
        ChannelSource::Right
    } else {
        ChannelSource::Silence
    }
}

/// Law: a single-channel device gets the average of left and right; a
/// device with two or more channels gets the left sample on channel 0 only,
/// the right sample on channel 1 only, silence on every further channel, and
/// never the average.
pub proof fn lemma_channel_map(channels: nat, c: nat)
    requires
        c < channels,
    ensures
        channels == 1 ==> channel_source_spec(channels, c) == ChannelSource::MonoMix,
        channels >= 2 ==> (channel_source_spec(channels, c) == ChannelSource::Left <==> c == 0),
        channels >= 2 ==> (channel_source_spec(channels, c) == ChannelSource::Right <==> c == 1),
        channels >= 2 ==> (channel_source_spec(channels, c) == ChannelSource::Silence <==> c >= 2),
        channels >= 2 ==> channel_source_spec(channels, c) != ChannelSource::MonoMix,
{
}

/// What channel `c` of a device frame with `channels` channels carries.
pub fn channel_source(channels: usize, c: usize) -> (r: ChannelSource)
    requires
        c < channels,
    ensures
        r == channel_source_spec(channels as nat, c as nat),
{
    if channels == 1 {
        ChannelSource::MonoMix
    } else if c == 0 {
        ChannelSource::Left
    } else if c == 1 {
        ChannelSource::Right
    } else {
        ChannelSource::Silence
    }
}

} // verus!
