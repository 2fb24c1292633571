//! Decoded audio, ready for the audio thread to read without touching a file.

use vstd::prelude::*;

use crate::paths::{
    a_name_is_its_stem_and_its_ending, file_name, joined, last_name, proper, stem, stem_of,
    what_is_put_on_the_end_is_at_the_end,
};
use crate::single::Single;

verus! {

/// Points in the little waveform the sample browser draws.
pub const WAVEFORM_POINTS: usize = 96;

/// A decoded sample. Cheap to pass around as an `Arc`, never mutated after decoding.
#[derive(Debug)]
pub struct Sample {
    /// File name without the extension, for showing in the UI.
    pub name: String,
    /// Where it came from, so a project can be saved with its samples later.
    pub path: String,
    /// Rate the file was recorded at. Playback rate corrects for the device rate.
    pub source_rate: u32,
    /// 1 or 2. Anything wider gets folded down to a stereo pair when decoding.
    pub channels: usize,
    /// Number of frames, i.e. `data.len() / channels`.
    pub frames: usize,
    /// Interleaved samples, `channels` wide.
    pub data: Vec<Single>,
    /// Downsampled magnitudes for drawing, always [`WAVEFORM_POINTS`] long.
    pub peaks: Vec<Single>,
    /// Loudest magnitude anywhere in the file.
    pub peak: Single,
}

/// How loud a sample value is, as the bits of its magnitude: nought for one that is not a number,
/// which is no louder than anything.
pub open spec fn loudness(v: Single) -> u32 {
    let magnitude = v.bits % 0x8000_0000;
    if magnitude > 0x7f80_0000 {
        0
    } else {
        magnitude
    }
}

/// The loudest of some values.
pub open spec fn loudest(data: Seq<Single>) -> u32
    decreases data.len(),
{
    if data.len() == 0 {
        0
    } else {
        let before = loudest(data.drop_last());
        if loudness(data.last()) > before {
            loudness(data.last())
        } else {
            before
        }
    }
}

/// The point of the waveform that a value is drawn in. A sample with fewer frames than there are
/// points has one to a point; a longer one is spread evenly over all of them.
pub open spec fn point_of(i: int, channels: int, frames: int) -> int {
    if frames <= WAVEFORM_POINTS {
        i / channels
    } else {
        i / channels * WAVEFORM_POINTS / frames
    }
}

/// The loudest of the values drawn in one point.
pub open spec fn loudest_at(data: Seq<Single>, channels: int, frames: int, point: int) -> u32
    decreases data.len(),
{
    if data.len() == 0 {
        0
    } else {
        let before = loudest_at(data.drop_last(), channels, frames, point);
        if point_of(data.len() - 1, channels, frames) == point && loudness(data.last()) > before {
            loudness(data.last())
        } else {
            before
        }
    }
}

/// The waveform and the overall peak that go with some data.
pub open spec fn summary(data: Seq<Single>, channels: int, frames: int) -> (Seq<u32>, u32) {
    if frames == 0 {
        (Seq::new(WAVEFORM_POINTS as nat, |p: int| 0u32), 0)
    } else {
        (
            Seq::new(WAVEFORM_POINTS as nat, |p: int| loudest_at(data, channels, frames, p)),
            loudest(data),
        )
    }
}

pub open spec fn bits_of() -> spec_fn(Single) -> u32 {
    |s: Single| s.bits
}

impl Sample {
    /// What is true of every sample: one channel or two, the frames the data makes, and the
    /// waveform that goes with it.
    pub open spec fn wf(&self) -> bool {
        &&& 1 <= self.channels <= 2
        &&& self.frames == self.data@.len() as int / self.channels as int
        &&& (self.peaks@.map_values(bits_of()), self.peak.bits) == summary(
            self.data@,
            self.channels as int,
            self.frames as int,
        )
    }

    /// Build a sample straight from interleaved data.
    pub fn from_data(name: &str, source_rate: u32, channels: usize, data: Vec<Single>) -> (r: Self)
        ensures
            r.wf(),
            r.name@ == name@,
            r.path@ == name@,
            r.source_rate == source_rate,
            r.channels == (if channels < 1 {
                1
            } else if channels > 2 {
                2
            } else {
                channels as int
            }),
            r.data@ == data@,
    {
        Sample::build(name, name, source_rate, channels, data)
    }

    fn build(
        name: &str,
        path: &str,
        source_rate: u32,
        channels: usize,
        data: Vec<Single>,
    ) -> (r: Self)
        ensures
            r.wf(),
            r.name@ == name@,
            r.path@ == path@,
            r.source_rate == source_rate,
            r.channels == (if channels < 1 {
                1
            } else if channels > 2 {
                2
            } else {
                channels as int
            }),
            r.data@ == data@,
    {
        let channels: usize = if channels < 1 {
            1
        } else if channels > 2 {
            2
        } else {
            channels
        };
        let frames: usize = data.len() / channels;
        let (peaks, peak) = summarise(&data, channels, frames);
        Sample {
            name: name.to_owned(),
            path: path.to_owned(),
            source_rate,
            channels,
            frames,
            data,
            peaks,
            peak,
        }
    }

    /// A sample out of everything a file decoded to, cut to whole frames. `None` when there is
    /// not one whole frame in it.
    fn assembled(
        name: &str,
        path: &str,
        source_rate: u32,
        channels: usize,
        data: Vec<Single>,
    ) -> (r: Option<Self>)
        requires
            1 <= channels <= 2,
        ensures
            r is None <==> data@.len() < channels,
            r matches Some(s) ==> {
                &&& s.wf()
                &&& s.name@ == name@
                &&& s.path@ == path@
                &&& s.source_rate == source_rate
                &&& s.channels == channels
                &&& s.data@ == data@.take(data@.len() as int / channels as int * channels)
            },
    {
        let frames: usize = data.len() / channels;
        proof {
            let len = data@.len() as int;
            assert(len / 1 == len);
            assert(channels == 1 || channels == 2);
            assert(frames == 0 <==> len < channels);
        }
        if frames == 0 {
            return None;
        }
        let mut data = data;
        proof {
            assert(frames * channels <= data@.len()) by (nonlinear_arith)
                requires
                    frames == data@.len() as int / channels as int,
                    channels > 0,
            ;
        }
        data.truncate(frames * channels);
        Some(Sample::build(name, path, source_rate, channels, data))
    }

    /// Length of the sample, as frames and frames in a second. No time at all when the rate is
    /// not known.
    pub fn duration(&self) -> (r: Option<(usize, u32)>)
        ensures
            r == (if self.source_rate == 0 {
                None
            } else {
                Some((self.frames, self.source_rate))
            }),
    {
        if self.source_rate == 0 {
            None
        } else {
            Some((self.frames, self.source_rate))
        }
    }
}

fn loudness_of(v: Single) -> (r: u32)
    ensures
        r == loudness(v),
{
    let magnitude: u32 = v.bits % 0x8000_0000;
    if magnitude > 0x7f80_0000 {
        0
    } else {
        magnitude
    }
}

fn point(i: usize, channels: usize, frames: usize) -> (r: u128)
    requires
        channels > 0,
        frames > 0,
    ensures
        r == point_of(i as int, channels as int, frames as int),
{
    let whole: usize = i / channels;
    let frame: u128 = whole as u128;
    proof {
        assert(frame <= 0xffff_ffff_ffff_ffff);
        assert(frame * WAVEFORM_POINTS <= 0xffff_ffff_ffff_ffff * 96);
    }
    if frames <= WAVEFORM_POINTS {
        frame
    } else {
        frame * (WAVEFORM_POINTS as u128) / (frames as u128)
    }
}

/// Waveform points plus the overall peak, in one pass.
fn summarise(data: &Vec<Single>, channels: usize, frames: usize) -> (r: (Vec<Single>, Single))
    requires
        channels > 0,
    ensures
        (r.0@.map_values(bits_of()), r.1.bits) == summary(data@, channels as int, frames as int),
{
    let mut peaks: Vec<Single> = Vec::new();
    let mut p: usize = 0;
    while p < WAVEFORM_POINTS
        invariant
            p <= WAVEFORM_POINTS,
            peaks@.len() == p,
            forall|k: int| 0 <= k < p ==> (#[trigger] peaks@[k]).bits == 0,
        decreases WAVEFORM_POINTS - p,
    {
        peaks.push(Single { bits: 0 });
        p = p + 1;
    }
    if frames == 0 {
        assert(peaks@.map_values(bits_of()) =~= summary(data@, channels as int, frames as int).0);
        return (peaks, Single { bits: 0 });
    }
    let mut peak: u32 = 0;
    let mut i: usize = 0;
    assert(data@.take(0) =~= Seq::empty());
    while i < data.len()
        invariant
            i <= data@.len(),
            channels > 0,
            frames > 0,
            peaks@.len() == WAVEFORM_POINTS,
            peak == loudest(data@.take(i as int)),
            forall|k: int|
                0 <= k < WAVEFORM_POINTS ==> (#[trigger] peaks@[k]).bits == loudest_at(
                    data@.take(i as int),
                    channels as int,
                    frames as int,
                    k,
                ),
        decreases data@.len() - i,
    {
        let ghost upto = data@.take(i as int + 1);
        proof {
            assert(upto.drop_last() =~= data@.take(i as int));
            assert(upto.last() == data@[i as int]);
        }
        let loud: u32 = loudness_of(data[i]);
        if loud > peak {
            peak = loud;
        }
        let at: u128 = point(i, channels, frames);
        if at < WAVEFORM_POINTS as u128 {
            let slot: usize = at as usize;
            if loud > peaks[slot].bits {
                peaks.set(slot, Single { bits: loud });
            }
        }
        i = i + 1;
    }
    proof {
        assert(data@.take(data@.len() as int) =~= data@);
        assert(peaks@.map_values(bits_of()) =~= summary(data@, channels as int, frames as int).0);
    }
    (peaks, Single { bits: peak })
}

/// Nothing in the file is louder than its peak, and something is exactly as loud, unless it is
/// all silence.
pub proof fn the_peak_is_the_loudest(data: Seq<Single>)
    ensures
        forall|i: int| 0 <= i < data.len() ==> loudness(#[trigger] data[i]) <= loudest(data),
        loudest(data) == 0 || exists|i: int|
            0 <= i < data.len() && loudness(#[trigger] data[i]) == loudest(data),
    decreases data.len(),
{
    if data.len() > 0 {
        let front = data.drop_last();
        the_peak_is_the_loudest(front);
        assert forall|i: int| 0 <= i < data.len() implies loudness(#[trigger] data[i]) <= loudest(
            data,
        ) by {
            if i < data.len() - 1 {
                assert(front[i] == data[i]);
            }
        }
        if loudest(data) != 0 {
            if loudness(data.last()) == loudest(data) {
                assert(data[data.len() - 1] == data.last());
            } else {
                let i = choose|i: int|
                    0 <= i < front.len() && loudness(#[trigger] front[i]) == loudest(front);
                assert(data[i] == front[i]);
            }
        }
    }
}

/// No point of the waveform stands higher than the peak.
pub proof fn the_waveform_stays_under_the_peak(
    data: Seq<Single>,
    channels: int,
    frames: int,
    point: int,
)
    ensures
        loudest_at(data, channels, frames, point) <= loudest(data),
    decreases data.len(),
{
    if data.len() > 0 {
        the_waveform_stays_under_the_peak(data.drop_last(), channels, frames, point);
    }
}

// --- reading a file in --------------------------------------------------------

/// How a packet's channels become the sample's.
#[derive(Clone, Copy, Debug, PartialEq, Eq, Structural)]
pub enum Folding {
    /// The same number of channels: as it is.
    AsIs,
    /// A mono packet in a stereo file: each value twice.
    Twice,
    /// A wider packet in a mono file: the average of each frame.
    Average,
    /// More than two channels: the front pair, which is what a sampler wants.
    FrontPair,
}

pub open spec fn folding_of(packet_channels: int, channels: int) -> Folding {
    let wide = if packet_channels < 1 { 1 } else { packet_channels };
    if wide == channels {
        Folding::AsIs
    } else if wide == 1 {
        Folding::Twice
    } else if channels == 1 {
        Folding::Average
    } else {
        Folding::FrontPair
    }
}

/// How a packet is folded to the sample's channels.
pub fn folding(packet_channels: usize, channels: usize) -> (r: Folding)
    ensures
        r == folding_of(packet_channels as int, channels as int),
{
    let wide: usize = if packet_channels < 1 {
        1
    } else {
        packet_channels
    };
    if wide == channels {
        Folding::AsIs
    } else if wide == 1 {
        Folding::Twice
    } else if channels == 1 {
        Folding::Average
    } else {
        Folding::FrontPair
    }
}

/// Every value twice over.
pub open spec fn doubled(packet: Seq<Single>) -> Seq<Single> {
    Seq::new(packet.len() * 2, |i: int| packet[i / 2])
}

/// The first two values of every frame of a packet.
pub open spec fn front_pairs(packet: Seq<Single>, wide: int) -> Seq<Single> {
    Seq::new((packet.len() as int / wide * 2) as nat, |i: int| packet[i / 2 * wide + i % 2])
}

/// Put a packet on the end of the data as it is.
fn append_as_is(data: &mut Vec<Single>, packet: &Vec<Single>)
    ensures
        final(data)@ == old(data)@ + packet@,
{
    let mut i: usize = 0;
    assert(data@ =~= old(data)@ + packet@.take(0));
    while i < packet.len()
        invariant
            i <= packet@.len(),
            data@ == old(data)@ + packet@.take(i as int),
        decreases packet@.len() - i,
    {
        data.push(packet[i]);
        i = i + 1;
        assert(data@ =~= old(data)@ + packet@.take(i as int));
    }
    assert(packet@.take(packet@.len() as int) =~= packet@);
}

/// Put a mono packet on the end of stereo data.
fn append_twice(data: &mut Vec<Single>, packet: &Vec<Single>)
    ensures
        final(data)@ == old(data)@ + doubled(packet@),
{
    let mut i: usize = 0;
    assert(data@ =~= old(data)@ + doubled(packet@).take(0));
    while i < packet.len()
        invariant
            i <= packet@.len(),
            data@ == old(data)@ + doubled(packet@).take(i * 2),
        decreases packet@.len() - i,
    {
        data.push(packet[i]);
        data.push(packet[i]);
        i = i + 1;
        assert(data@ =~= old(data)@ + doubled(packet@).take(i * 2));
    }
    assert(doubled(packet@).take((packet@.len() * 2) as int) =~= doubled(packet@));
}

/// Put the front pair of a wide packet on the end of stereo data. The packet is whole frames.
fn append_front_pair(data: &mut Vec<Single>, packet: &Vec<Single>, wide: usize)
    requires
        wide >= 2,
        packet@.len() % wide as nat == 0,
    ensures
        final(data)@ == old(data)@ + front_pairs(packet@, wide as int),
{
    let len: usize = packet.len();
    let frames: usize = len / wide;
    let ghost pairs = front_pairs(packet@, wide as int);
    let mut i: usize = 0;
    assert(data@ =~= old(data)@ + pairs.take(0));
    while i < frames
        invariant
            i <= frames,
            wide >= 2,
            len == packet@.len(),
            frames == len as int / wide as int,
            pairs == front_pairs(packet@, wide as int),
            data@ == old(data)@ + pairs.take(i * 2),
        decreases frames - i,
    {
        proof {
            assert(0 <= i * wide && i * wide + wide <= len) by (nonlinear_arith)
                requires
                    0 <= i < frames,
                    frames == len as int / wide as int,
                    wide >= 2,
            ;
        }
        let at: usize = i * wide;
        data.push(packet[at]);
        data.push(packet[at + 1]);
        proof {
            assert((i * 2) / 2 == i && (i * 2) % 2 == 0);
            assert((i * 2 + 1) / 2 == i && (i * 2 + 1) % 2 == 1);
            assert(pairs[i * 2] == packet@[at as int]);
            assert(pairs[i * 2 + 1] == packet@[at as int + 1]);
        }
        i = i + 1;
        assert(data@ =~= old(data)@ + pairs.take(i * 2));
    }
    assert(pairs.take(pairs.len() as int) =~= pairs);
}

/// What came of asking a file for its next packet.
#[derive(Clone, Copy, Debug, PartialEq, Eq, Structural)]
pub enum Packet {
    /// There are no more.
    End,
    /// The file stops part way through one.
    CutShort,
    /// The file could not be read.
    Unreadable,
    /// One that belongs to some other track in the file.
    Foreign,
    /// One that is damaged.
    Damaged,
    /// One that the decoder gave up on.
    Undecodable,
    /// One that decoded.
    Decoded,
}

/// What to do about it.
#[derive(Clone, Copy, Debug, PartialEq, Eq, Structural)]
pub enum Reading {
    /// Make a sample out of what there is.
    Finish,
    /// Ask for the next packet.
    Skip,
    /// Put it on the end of the data, then ask for the next packet.
    Append,
    /// Give the file up.
    Fail,
}

/// A truncated file is still worth playing up to where it stops, and a bad packet is skipped
/// rather than losing the whole file.
pub open spec fn reading_of(packet: Packet) -> Reading {
    match packet {
        Packet::End | Packet::CutShort => Reading::Finish,
        Packet::Foreign | Packet::Damaged => Reading::Skip,
        Packet::Decoded => Reading::Append,
        Packet::Unreadable | Packet::Undecodable => Reading::Fail,
    }
}

/// What to do about the next packet of a file.
pub fn reading(packet: Packet) -> (r: Reading)
    ensures
        r == reading_of(packet),
{
    match packet {
        Packet::End => Reading::Finish,
        Packet::CutShort => Reading::Finish,
        Packet::Foreign => Reading::Skip,
        Packet::Damaged => Reading::Skip,
        Packet::Decoded => Reading::Append,
        Packet::Unreadable => Reading::Fail,
        Packet::Undecodable => Reading::Fail,
    }
}

/// What a sample is called: the name of its file, without the ending.
pub open spec fn title(path: Seq<char>) -> Seq<char> {
    match last_name(path) {
        Some(name) => stem_of(name),
        None => "sample"@,
    }
}

pub fn title_of(path: &str) -> (r: String)
    ensures
        r@ == title(path@),
{
    match file_name(path) {
        Some(name) => stem(name.as_str()),
        None => "sample".to_owned(),
    }
}

/// A packet's values as the sample has them: folded to its channels. `mixed` is the average of
/// each frame of the packet.
pub open spec fn folded(
    packet: Seq<Single>,
    wide: int,
    channels: int,
    mixed: Seq<Single>,
) -> Seq<Single> {
    match folding_of(wide, channels) {
        Folding::AsIs => packet,
        Folding::Twice => doubled(packet),
        Folding::Average => mixed,
        Folding::FrontPair => front_pairs(packet, wide),
    }
}

/// A file part way through being decoded.
pub struct Decoding {
    rate: u32,
    channels: usize,
    data: Vec<Single>,
}

impl Decoding {
    pub closed spec fn rate(&self) -> u32 {
        self.rate
    }

    pub closed spec fn width(&self) -> int {
        self.channels as int
    }

    pub closed spec fn data(&self) -> Seq<Single> {
        self.data@
    }

    /// At most stereo, and nothing is no channels wide.
    pub open spec fn wf(&self) -> bool {
        1 <= self.width() <= 2
    }

    /// Start on a file, from what it says of itself. One that does not say is taken to be a
    /// stereo one at the rate of a compact disc.
    pub fn new(rate: Option<u32>, channels: Option<usize>) -> (r: Self)
        ensures
            r.wf(),
            r.rate() == (match rate {
                Some(n) => n,
                None => 44_100,
            }),
            r.width() == (match channels {
                Some(n) => if n < 1 {
                    1
                } else if n > 2 {
                    2
                } else {
                    n as int
                },
                None => 2,
            }),
            r.data().len() == 0,
    {
        let rate: u32 = match rate {
            Some(n) => n,
            None => 44_100,
        };
        let channels: usize = match channels {
            Some(n) => if n < 1 {
                1
            } else if n > 2 {
                2
            } else {
                n
            },
            None => 2,
        };
        Decoding { rate, channels, data: Vec::new() }
    }

    /// How wide the sample is to be.
    pub fn channels(&self) -> (r: usize)
        ensures
            r == self.width(),
    {
        self.channels
    }

    /// Put a decoded packet on the end: whole frames of it, folded to at most stereo. `mixed` is
    /// the average of each frame, which is wanted when [`folding`] says so and at no other time.
    /// A packet that knows its rate has the last word on it.
    pub fn append(&mut self, rate: u32, wide: usize, packet: &Vec<Single>, mixed: &Vec<Single>)
        requires
            old(self).wf(),
            wide >= 1 ==> packet@.len() % wide as nat == 0,
        ensures
            final(self).wf(),
            final(self).width() == old(self).width(),
            final(self).rate() == (if rate > 0 {
                rate
            } else {
                old(self).rate()
            }),
            final(self).data() == old(self).data() + folded(
                packet@,
                wide as int,
                old(self).width(),
                mixed@,
            ),
    {
        if rate > 0 {
            self.rate = rate;
        }
        match folding(wide, self.channels) {
            Folding::AsIs => append_as_is(&mut self.data, packet),
            Folding::Twice => append_twice(&mut self.data, packet),
            Folding::Average => append_as_is(&mut self.data, mixed),
            Folding::FrontPair => append_front_pair(&mut self.data, packet, wide),
        }
    }

    /// The sample the file makes, cut to whole frames. `None` when there is not one whole frame
    /// in it.
    pub fn finish(self, path: &str) -> (r: Option<Sample>)
        requires
            self.wf(),
        ensures
            r is None <==> self.data().len() < self.width(),
            r matches Some(s) ==> {
                &&& s.wf()
                &&& s.name@ == title(path@)
                &&& s.path@ == path@
                &&& s.source_rate == self.rate()
                &&& s.channels == self.width()
                &&& s.data@ == self.data().take(
                    self.data().len() as int / self.width() * self.width(),
                )
            },
    {
        let name: String = title_of(path);
        Sample::assembled(name.as_str(), path, self.rate, self.channels, self.data)
    }
}

// --- what each comes to -----------------------------------------------------------------

/// How loud a value is: how far it is from nought, whichever side, and nothing when it is not a
/// number.
pub proof fn how_loud_a_value_is(v: Single)
    ensures
        v.nan() ==> loudness(v) == 0,
        !v.nan() && v.bits < 0x8000_0000 ==> loudness(v) == v.bits,
        !v.nan() && v.bits >= 0x8000_0000 ==> loudness(v) == v.bits - 0x8000_0000,
{
}

/// Whether a frame is drawn in a point of the waveform, of which there are ninety six: its own,
/// when there are no more frames than points, and otherwise the one that comes as far along them
/// as the frame does along the frames.
pub open spec fn drawn_in(frame: int, frames: int, point: int) -> bool {
    if frames <= 96 {
        frame == point
    } else {
        point * frames <= frame * 96 < (point + 1) * frames
    }
}

/// A point of the waveform is as loud as the loudest of the values of the frames that are drawn in
/// it: none of them is louder, and one is as loud unless it is silent.
pub proof fn a_point_is_as_loud_as_its_loudest(
    data: Seq<Single>,
    channels: int,
    frames: int,
    point: int,
)
    requires
        channels >= 1,
        frames >= 1,
    ensures
        forall|i: int|
            0 <= i < data.len() && drawn_in(i / channels, frames, point) ==> loudness(
                #[trigger] data[i],
            ) <= loudest_at(data, channels, frames, point),
        loudest_at(data, channels, frames, point) == 0 || exists|i: int|
            0 <= i < data.len() && drawn_in(i / channels, frames, point) && loudness(
                #[trigger] data[i],
            ) == loudest_at(data, channels, frames, point),
    decreases data.len(),
{
    if data.len() > 0 {
        let front = data.drop_last();
        a_point_is_as_loud_as_its_loudest(front, channels, frames, point);
        let end = data.len() - 1;
        lemma_drawn_in(end, channels, frames, point);
        let here = loudest_at(data, channels, frames, point);
        assert(data[end] == data.last());
        assert forall|i: int|
            0 <= i < data.len() && drawn_in(i / channels, frames, point) implies loudness(
            #[trigger] data[i],
        ) <= here by {
            if i < end {
                assert(front[i] == data[i]);
            }
        }
        let before = loudest_at(front, channels, frames, point);
        if here != 0 {
            if point_of(end, channels, frames) == point && loudness(data.last()) > before {
                assert(loudness(data[end]) == here);
            } else {
                let i = choose|i: int|
                    0 <= i < front.len() && drawn_in(i / channels, frames, point) && loudness(
                        #[trigger] front[i],
                    ) == before;
                assert(data[i] == front[i]);
            }
        }
    }
}

proof fn lemma_drawn_in(i: int, channels: int, frames: int, point: int)
    requires
        channels >= 1,
        frames >= 1,
        i >= 0,
    ensures
        point_of(i, channels, frames) == point <==> drawn_in(i / channels, frames, point),
{
    if frames > 96 {
        let along = i / channels * 96;
        vstd::arithmetic::div_mod::lemma_fundamental_div_mod(along, frames);
        let q = along / frames;
        let r = along % frames;
        assert(q * frames <= along < (q + 1) * frames) by (nonlinear_arith)
            requires
                along == frames * q + r,
                0 <= r < frames,
        ;
        if point < q {
            assert((point + 1) * frames <= q * frames) by (nonlinear_arith)
                requires
                    point + 1 <= q,
                    frames > 0,
            ;
        } else if point > q {
            assert((q + 1) * frames <= point * frames) by (nonlinear_arith)
                requires
                    q + 1 <= point,
                    frames > 0,
            ;
        }
    }
}

/// A sample with no frames is flat and silent. Any other has a waveform of ninety six points, each
/// as loud as its loudest, and a peak as loud as the loudest of all.
pub proof fn what_a_summary_says(data: Seq<Single>, channels: int, frames: int, point: int)
    requires
        0 <= point < 96,
    ensures
        summary(data, channels, frames).0.len() == 96,
        frames == 0 ==> summary(data, channels, frames).0[point] == 0 && summary(
            data,
            channels,
            frames,
        ).1 == 0,
        frames != 0 ==> summary(data, channels, frames).0[point] == loudest_at(
            data,
            channels,
            frames,
            point,
        ) && summary(data, channels, frames).1 == loudest(data),
{
}

/// A packet as wide as the sample goes in as it is. One that is one channel wide goes into a sample
/// of two on both sides; a wider one goes into a sample of one as what its frames average, and into
/// a sample of two as the first two of its channels.
pub proof fn how_a_packet_goes_in(
    packet: Seq<Single>,
    wide: int,
    channels: int,
    mixed: Seq<Single>,
    k: int,
)
    requires
        wide >= 1,
        1 <= channels <= 2,
        k >= 0,
    ensures
        ({
            let out = folded(packet, wide, channels, mixed);
            &&& wide == channels ==> out == packet
            &&& wide == 1 && channels == 2 ==> {
                &&& out.len() == packet.len() * 2
                &&& k < packet.len() ==> out[2 * k] == packet[k] && out[2 * k + 1] == packet[k]
            }
            &&& wide >= 2 && channels == 1 ==> out == mixed
            &&& wide > 2 && channels == 2 ==> {
                &&& out.len() == packet.len() as int / wide * 2
                &&& k < packet.len() as int / wide ==> out[2 * k] == packet[k * wide] && out[2 * k
                    + 1] == packet[k * wide + 1]
            }
        }),
{
    assert((2 * k) / 2 == k && (2 * k + 1) / 2 == k && (2 * k) % 2 == 0 && (2 * k + 1) % 2 == 1);
    if wide > 2 && channels == 2 {
        assert(packet.len() as int / wide >= 0) by (nonlinear_arith)
            requires
                wide > 0,
        ;
    }
}

/// Reading goes on past a packet that is of another stream or is damaged, takes what was decoded,
/// and ends where the file does, or is cut short; anything else is a failure.
pub proof fn when_reading_goes_on(packet: Packet)
    ensures
        reading_of(packet) == Reading::Append <==> packet == Packet::Decoded,
        reading_of(packet) == Reading::Finish <==> packet == Packet::End || packet
            == Packet::CutShort,
        reading_of(packet) == Reading::Skip <==> packet == Packet::Foreign || packet
            == Packet::Damaged,
        reading_of(packet) == Reading::Fail <==> packet == Packet::Unreadable || packet
            == Packet::Undecodable,
{
}

/// A sample is called what its file is, without the ending.
pub proof fn a_sample_is_called_what_its_file_is(
    dir: Seq<char>,
    stem: Seq<char>,
    ending: Seq<char>,
)
    requires
        stem.len() > 0,
        !stem.contains('/'),
        ending.len() > 0,
        !ending.contains('/'),
        !ending.contains('.'),
    ensures
        title(joined(dir, stem.push('.') + ending)) == stem,
        proper(ending) ==> title(joined(dir, ending)) == ending,
{
    let name = stem.push('.') + ending;
    assert(!name.contains('/')) by {
        if name.contains('/') {
            let k = choose|k: int| 0 <= k < name.len() && name[k] == '/';
            if k < stem.len() {
                assert(stem[k] == '/');
            } else if k > stem.len() {
                assert(ending[k - stem.len() - 1] == '/');
            }
        }
    }
    assert(seq!['.'].len() == 1 && seq!['.', '.'].len() == 2);
    what_is_put_on_the_end_is_at_the_end(dir, name);
    what_is_put_on_the_end_is_at_the_end(dir, ending);
    a_name_is_its_stem_and_its_ending(stem, ending);
}

} // verus!
