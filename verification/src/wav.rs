//! What the drums that ship with the app are made with: noise that never changes, and a minimal
//! WAV file. No dependencies, because a header is 44 bytes.

use vstd::prelude::*;

verus! {

/// Frames in a second of the drums.
pub const RATE: u32 = 44_100;

/// Where the noise starts.
pub const SEED: u32 = 0x5eed_1234;

/// Deterministic white noise, so the pack never changes between runs.
#[derive(Debug)]
pub struct Noise {
    state: u32,
}

/// One turn of the generator: three shifts and three exclusive ors.
pub open spec fn turned(x: u32) -> u32 {
    let a = x ^ (x << 13u32);
    let b = a ^ (a >> 17u32);
    b ^ (b << 5u32)
}

impl Noise {
    pub closed spec fn state(&self) -> u32 {
        self.state
    }

    pub fn new() -> (r: Self)
        ensures
            r.state() == SEED,
    {
        Noise { state: SEED }
    }

    /// The next number, anywhere from nought up.
    pub fn next(&mut self) -> (r: u32)
        ensures
            r == turned(old(self).state()),
            final(self).state() == r,
    {
        self.state = self.state ^ (self.state << 13u32);
        self.state = self.state ^ (self.state >> 17u32);
        self.state = self.state ^ (self.state << 5u32);
        self.state
    }
}

impl Default for Noise {
    fn default() -> (r: Self)
        ensures
            r.state() == SEED,
    {
        Noise::new()
    }
}

/// The noise never gets stuck: a number that is not nought is followed by another that is not.
pub proof fn the_noise_never_stops(x: u32)
    ensures
        x != 0 ==> turned(x) != 0,
        turned(0) == 0,
{
    assert(x != 0 ==> ({
        let a = x ^ (x << 13u32);
        let b = a ^ (a >> 17u32);
        b ^ (b << 5u32)
    }) != 0) by (bit_vector);
    assert(({
        let a = 0u32 ^ (0u32 << 13u32);
        let b = a ^ (a >> 17u32);
        b ^ (b << 5u32)
    }) == 0) by (bit_vector);
}

// --- bytes, small end first ---------------------------------------------------

pub open spec fn two(v: u16) -> Seq<u8> {
    seq![(v % 256) as u8, (v / 256) as u8]
}

pub open spec fn four(v: u32) -> Seq<u8> {
    seq![
        (v % 256) as u8,
        (v / 256 % 256) as u8,
        (v / 65536 % 256) as u8,
        (v / 16777216) as u8,
    ]
}

fn put_two(out: &mut Vec<u8>, v: u16)
    ensures
        final(out)@ == old(out)@ + two(v),
{
    out.push((v % 256) as u8);
    out.push((v / 256) as u8);
    assert(out@ =~= old(out)@ + two(v));
}

fn put_four(out: &mut Vec<u8>, v: u32)
    ensures
        final(out)@ == old(out)@ + four(v),
{
    out.push((v % 256) as u8);
    out.push((v / 256 % 256) as u8);
    out.push((v / 65536 % 256) as u8);
    out.push((v / 16777216) as u8);
    assert(out@ =~= old(out)@ + four(v));
}

fn put_tag(out: &mut Vec<u8>, a: u8, b: u8, c: u8, d: u8)
    ensures
        final(out)@ == old(out)@ + seq![a, b, c, d],
{
    out.push(a);
    out.push(b);
    out.push(c);
    out.push(d);
    assert(out@ =~= old(out)@ + seq![a, b, c, d]);
}

// --- the file -----------------------------------------------------------------

/// The header: 16 bit mono PCM, and so many bytes of it.
pub open spec fn header(data_len: u32) -> Seq<u8> {
    // "RIFF", the length of the rest, "WAVE".
    seq![0x52u8, 0x49, 0x46, 0x46] + four((36 + data_len) as u32) + seq![0x57u8, 0x41, 0x56, 0x45]
    // "fmt ", sixteen bytes of it: PCM, one channel, the rate, bytes a second, bytes a frame,
    // bits a sample.
     + seq![0x66u8, 0x6d, 0x74, 0x20] + four(16) + two(1) + two(1) + four(RATE) + four(
        (RATE * 2) as u32,
    ) + two(2) + two(16)
    // "data".
     + seq![0x64u8, 0x61, 0x74, 0x61] + four(data_len)
}

/// The samples, two bytes each.
pub open spec fn body(samples: Seq<i16>) -> Seq<u8>
    decreases samples.len(),
{
    if samples.len() == 0 {
        Seq::empty()
    } else {
        body(samples.drop_last()) + two(samples.last() as u16)
    }
}

/// The bytes of a WAV file.
pub fn wav_bytes(samples: &Vec<i16>) -> (r: Vec<u8>)
    requires
        36 + samples@.len() * 2 <= u32::MAX,
    ensures
        r@ == header((samples@.len() * 2) as u32) + body(samples@),
{
    let data_len: u32 = (samples.len() * 2) as u32;
    let mut out: Vec<u8> = Vec::new();
    put_tag(&mut out, 0x52, 0x49, 0x46, 0x46);
    put_four(&mut out, 36 + data_len);
    put_tag(&mut out, 0x57, 0x41, 0x56, 0x45);
    put_tag(&mut out, 0x66, 0x6d, 0x74, 0x20);
    put_four(&mut out, 16);
    put_two(&mut out, 1);
    put_two(&mut out, 1);
    put_four(&mut out, RATE);
    put_four(&mut out, RATE * 2);
    put_two(&mut out, 2);
    put_two(&mut out, 16);
    put_tag(&mut out, 0x64, 0x61, 0x74, 0x61);
    put_four(&mut out, data_len);
    assert(out@ =~= header(data_len));
    let mut i: usize = 0;
    assert(samples@.take(0) =~= Seq::empty());
    assert(out@ =~= header(data_len) + body(samples@.take(0)));
    while i < samples.len()
        invariant
            i <= samples@.len(),
            out@ == header(data_len) + body(samples@.take(i as int)),
        decreases samples@.len() - i,
    {
        proof {
            let upto = samples@.take(i as int + 1);
            assert(upto.drop_last() =~= samples@.take(i as int));
            assert(upto.last() == samples@[i as int]);
        }
        put_two(&mut out, samples[i] as u16);
        i = i + 1;
        assert(out@ =~= header(data_len) + body(samples@.take(i as int)));
    }
    assert(samples@.take(samples@.len() as int) =~= samples@);
    out
}

/// A WAV file is 44 bytes and two for every sample, and each sample can be read back from its
/// two.
pub proof fn every_sample_is_in_the_file(samples: Seq<i16>, i: int)
    requires
        0 <= i < samples.len(),
    ensures
        header((samples.len() * 2) as u32).len() == 44,
        body(samples).len() == samples.len() * 2,
        body(samples)[i * 2] + body(samples)[i * 2 + 1] * 256 == samples[i] as u16,
    decreases samples.len(),
{
    lemma_body_len(samples);
    let front = samples.drop_last();
    lemma_body_len(front);
    if i < samples.len() - 1 {
        every_sample_is_in_the_file(front, i);
        assert(front[i] == samples[i]);
        assert(body(samples)[i * 2] == body(front)[i * 2]);
        assert(body(samples)[i * 2 + 1] == body(front)[i * 2 + 1]);
    } else {
        let v = samples[i] as u16;
        assert(body(samples)[i * 2] == two(v)[0]);
        assert(body(samples)[i * 2 + 1] == two(v)[1]);
    }
}

proof fn lemma_body_len(samples: Seq<i16>)
    ensures
        body(samples).len() == samples.len() * 2,
    decreases samples.len(),
{
    if samples.len() > 0 {
        lemma_body_len(samples.drop_last());
    }
}

/// The number four bytes are, from a place on, small end first.
pub open spec fn number_at(bytes: Seq<u8>, at: int) -> int {
    bytes[at] + bytes[at + 1] * 256 + bytes[at + 2] * 65536 + bytes[at + 3] * 16777216
}

/// What the header says: a RIFF file of everything after its first eight bytes, a WAVE one, with a
/// sixteen byte format of plain PCM in one channel at 44100 frames a second, two bytes a frame and
/// sixteen bits a sample, and so many bytes of data.
#[verifier::rlimit(60)]
#[verifier::spinoff_prover]
pub proof fn the_header_says_what_follows(data_len: u32)
    requires
        36 + data_len <= u32::MAX,
    ensures
        ({
            let h = header(data_len);
            &&& h.len() == 44
            &&& h.subrange(0, 4) == seq![0x52u8, 0x49, 0x46, 0x46]
            &&& number_at(h, 4) == 36 + data_len
            &&& h.subrange(8, 16) == seq![0x57u8, 0x41, 0x56, 0x45, 0x66, 0x6d, 0x74, 0x20]
            &&& h.subrange(16, 24) == seq![16u8, 0, 0, 0, 1, 0, 1, 0]
            &&& number_at(h, 24) == 44_100
            &&& number_at(h, 28) == 88_200
            &&& h.subrange(32, 40) == seq![2u8, 0, 16, 0, 0x64, 0x61, 0x74, 0x61]
            &&& number_at(h, 40) == data_len
        }),
{
    let h = header(data_len);
    assert(h.subrange(0, 4) =~= seq![0x52u8, 0x49, 0x46, 0x46]);
    assert(h.subrange(4, 8) =~= four((36 + data_len) as u32));
    assert(h.subrange(8, 16) =~= seq![0x57u8, 0x41, 0x56, 0x45, 0x66, 0x6d, 0x74, 0x20]);
    assert(h.subrange(16, 24) =~= seq![16u8, 0, 0, 0, 1, 0, 1, 0]);
    assert(h.subrange(24, 28) =~= four(44_100));
    assert(h.subrange(28, 32) =~= four(88_200));
    assert(h.subrange(32, 40) =~= seq![2u8, 0, 16, 0, 0x64, 0x61, 0x74, 0x61]);
    assert(h.subrange(40, 44) =~= four(data_len));
    lemma_number_at(h, 4, (36 + data_len) as u32);
    lemma_number_at(h, 24, 44_100);
    lemma_number_at(h, 28, 88_200);
    lemma_number_at(h, 40, data_len);
}

/// Four bytes, small end first, are the number they were written from.
proof fn lemma_number_at(bytes: Seq<u8>, at: int, v: u32)
    requires
        0 <= at,
        at + 4 <= bytes.len(),
        bytes.subrange(at, at + 4) == four(v),
    ensures
        number_at(bytes, at) == v,
{
    let these = bytes.subrange(at, at + 4);
    assert(these[0] == bytes[at] && these[1] == bytes[at + 1] && these[2] == bytes[at + 2]
        && these[3] == bytes[at + 3]);
}

/// The noise is three shifts and three exclusive ors, each undone by another: two numbers that are
/// followed by the same one are the same.
pub proof fn the_noise_repeats_nothing_early(x: u32, y: u32)
    ensures
        turned(x) == turned(y) ==> x == y,
        turned(x) == x ^ (x << 13u32) ^ ((x ^ (x << 13u32)) >> 17u32) ^ ((x ^ (x << 13u32) ^ ((x ^ (
        x << 13u32)) >> 17u32)) << 5u32),
{
    let a = x ^ (x << 13u32);
    let b = a ^ (a >> 17u32);
    let c = y ^ (y << 13u32);
    let d = c ^ (c >> 17u32);
    assert(x ^ (x << 13u32) == y ^ (y << 13u32) ==> x == y) by (bit_vector);
    assert(a ^ (a >> 17u32) == c ^ (c >> 17u32) ==> a == c) by (bit_vector);
    assert(b ^ (b << 5u32) == d ^ (d << 5u32) ==> b == d) by (bit_vector);
}

} // verus!
