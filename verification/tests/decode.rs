//! Turning a file into a sample, with a real decoder reading the files.

use std::io::Cursor;

use weetbeats::paths::{audio_extensions, ending, file_name, is_audio_file};
use weetbeats::sample::{folding, reading, Decoding, Folding, Packet, Reading, WAVEFORM_POINTS};
use weetbeats::wav::{wav_bytes, Noise};
use weetbeats::{Sample, Single};

fn number(x: Single) -> f32 {
    f32::from_bits(x.bits)
}

fn single(x: f32) -> Single {
    Single { bits: x.to_bits() }
}

/// Decode a file that is already in memory.
fn decode(path: &str, bytes: Vec<u8>) -> Result<Sample, String> {
    let stream = symphonia::core::io::MediaSourceStream::new(
        Box::new(Cursor::new(bytes)),
        Default::default(),
    );
    let mut hint = symphonia::core::formats::probe::Hint::new();
    if let Some(end) = file_name(path).and_then(|name| ending(&name)) {
        hint.with_extension(&end);
    }
    let mut format = symphonia::default::get_probe()
        .probe(
            &hint,
            stream,
            symphonia::core::formats::FormatOptions::default(),
            symphonia::core::meta::MetadataOptions::default(),
        )
        .map_err(|e| e.to_string())?;
    let track = format
        .default_track(symphonia::core::formats::TrackType::Audio)
        .or_else(|| format.first_track(symphonia::core::formats::TrackType::Audio))
        .ok_or("file has no audio track")?;
    let track_id = track.id;
    let params = match track.codec_params.as_ref() {
        Some(symphonia::core::codecs::CodecParameters::Audio(p)) => p.clone(),
        _ => return Err("unknown codec".into()),
    };
    let mut decoder = symphonia::default::get_codecs()
        .make_audio_decoder(
            &params,
            &symphonia::core::codecs::audio::AudioDecoderOptions::default(),
        )
        .map_err(|e| e.to_string())?;
    let mut decoding = Decoding::new(
        params.sample_rate,
        params.channels.as_ref().map(|c| c.count()),
    );
    let mut scratch: Vec<f32> = Vec::new();
    loop {
        let (packet, next) = match format.next_packet() {
            Ok(Some(p)) if p.track_id != track_id => (Packet::Foreign, None),
            Ok(Some(p)) => (Packet::Decoded, Some(p)),
            Ok(None) => (Packet::End, None),
            Err(symphonia::core::errors::Error::IoError(ref e))
                if e.kind() == std::io::ErrorKind::UnexpectedEof =>
            {
                (Packet::CutShort, None)
            }
            Err(_) => (Packet::Unreadable, None),
        };
        match reading(packet) {
            Reading::Finish => break,
            Reading::Skip => continue,
            Reading::Fail => return Err("could not be read".into()),
            Reading::Append => {}
        }
        let decoded = match decoder.decode(&next.unwrap()) {
            Ok(decoded) => decoded,
            Err(e) => {
                let packet = match e {
                    symphonia::core::errors::Error::DecodeError(_) => Packet::Damaged,
                    _ => Packet::Undecodable,
                };
                match reading(packet) {
                    Reading::Skip => continue,
                    _ => return Err(e.to_string()),
                }
            }
        };
        let spec = decoded.spec();
        let wide = spec.channels().count();
        let rate = spec.rate();
        decoded.copy_to_vec_interleaved(&mut scratch);
        let values: Vec<Single> = scratch.iter().map(|v| single(*v)).collect();
        let mixed: Vec<Single> = if folding(wide, decoding.channels()) == Folding::Average {
            scratch
                .chunks(wide)
                .map(|frame| single(frame.iter().sum::<f32>() / wide as f32))
                .collect()
        } else {
            Vec::new()
        };
        decoding.append(rate, wide, &values, &mixed);
    }
    decoding.finish(path).ok_or("no audio in file".to_string())
}

/// A second of noise fading away, as a file.
fn a_hit() -> Vec<u8> {
    let mut noise = Noise::new();
    let samples: Vec<i16> = (0..4_410i32)
        .map(|i| {
            let level = 24_000 - i * 5;
            ((noise.next() >> 16) as i32 * level / 65_536 - level / 2) as i16
        })
        .collect();
    wav_bytes(&samples)
}

#[test]
fn names_come_from_the_file_name() {
    let sample = decode("/pack/01 kick.wav", a_hit()).unwrap();
    assert_eq!(sample.name, "01 kick");
    assert_eq!(sample.path, "/pack/01 kick.wav");
}

/// What is written is what a decoder reads back, value for value.
#[test]
fn a_written_file_reads_back() {
    let samples: Vec<i16> = vec![0, 1, -1, 12_345, -12_345, i16::MAX, i16::MIN, 256, -256];
    let sample = decode("tone.wav", wav_bytes(&samples)).unwrap();
    assert_eq!(sample.source_rate, 44_100);
    assert_eq!(sample.channels, 1);
    assert_eq!(sample.frames, samples.len());
    let back: Vec<i16> = sample
        .data
        .iter()
        .map(|v| (number(*v) * 32_768.0).round() as i32 as i16)
        .collect();
    assert_eq!(back, samples);
    assert_eq!(number(sample.peak), 1.0);
    assert_eq!(sample.peaks.len(), WAVEFORM_POINTS);
    assert_eq!(sample.duration(), Some((9, 44_100)));
}

#[test]
fn rejects_things_that_are_not_audio() {
    let path = "README.md";
    assert!(!is_audio_file(path));
    assert!(decode(path, b"# Weetbeats\n\nA beat maker.\n".to_vec()).is_err());
}

#[test]
fn extension_matching_ignores_case() {
    assert!(is_audio_file("/x/Kick.WAV"));
    assert!(is_audio_file("/x/loop.Flac"));
    assert!(!is_audio_file("/x/notes.txt"));
    assert!(!is_audio_file("/x/no-extension"));
}

#[test]
fn every_ending_on_the_list_is_offered() {
    let all = audio_extensions();
    assert_eq!(
        all,
        vec![
            "wav", "wave", "mp3", "flac", "ogg", "oga", "aiff", "aif", "aifc", "m4a", "mp4", "aac",
            "caf",
        ]
    );
    for end in all {
        assert!(is_audio_file(&format!("/x/sound.{end}")));
        assert!(is_audio_file(&format!("sound.{}", end.to_uppercase())));
        assert!(!is_audio_file(&format!("/x/.{end}")));
        assert!(!is_audio_file(&format!("/x/sound.{end}x")));
    }
}

/// Every extension the file picker offers has to be one we can actually read.
///
/// This is not hypothetical. `.aiff` and `.caf` were in the list the picker filters on while
/// the readers for them were switched off, so choosing an AIFF got it copied into the
/// project, failed to decode, and came back as "could not read …/samples/whatever.aiff".
/// The file the picker will let you choose and the file the decoder will take have to be the
/// same set, and the only way to know is to hand it one of each.
#[test]
fn everything_the_picker_offers_can_be_decoded() {
    for (name, bytes) in [("tone.aiff", aiff()), ("tone.caf", caf())] {
        assert!(is_audio_file(name), "{name} is not offered by the picker");
        let sample = decode(name, bytes).unwrap_or_else(|e| panic!("{name}: {e}"));
        assert_eq!(
            sample.source_rate, 44_100,
            "{name} came back at the wrong rate"
        );
        assert_eq!(sample.channels, 1);
        assert_eq!(sample.frames, FRAMES, "{name} lost frames on the way in");
        assert!(
            number(sample.peak) > 0.4,
            "{name} came back quiet: {}",
            number(sample.peak)
        );
    }
}

/// A short ramp, as sixteen bit samples. What both of the files below hold.
const FRAMES: usize = 64;

fn pcm() -> Vec<i16> {
    (0..FRAMES)
        .map(|i| ((i as f32 / FRAMES as f32) * 24_000.0) as i16)
        .collect()
}

/// A minimal AIFF: FORM/AIFF with a COMM chunk and an SSND chunk, big endian throughout.
fn aiff() -> Vec<u8> {
    let samples = pcm();
    let mut comm = Vec::new();
    comm.extend_from_slice(&1u16.to_be_bytes()); // channels
    comm.extend_from_slice(&(FRAMES as u32).to_be_bytes());
    comm.extend_from_slice(&16u16.to_be_bytes()); // bits
                                                  // 44100 as an 80 bit IEEE extended float, which is how AIFF writes a sample rate.
    comm.extend_from_slice(&[0x40, 0x0E, 0xAC, 0x44, 0, 0, 0, 0, 0, 0]);

    let mut ssnd = Vec::new();
    ssnd.extend_from_slice(&0u32.to_be_bytes()); // offset
    ssnd.extend_from_slice(&0u32.to_be_bytes()); // block size
    for sample in &samples {
        ssnd.extend_from_slice(&sample.to_be_bytes());
    }

    let mut body = Vec::new();
    body.extend_from_slice(b"AIFF");
    body.extend_from_slice(b"COMM");
    body.extend_from_slice(&(comm.len() as u32).to_be_bytes());
    body.extend_from_slice(&comm);
    body.extend_from_slice(b"SSND");
    body.extend_from_slice(&(ssnd.len() as u32).to_be_bytes());
    body.extend_from_slice(&ssnd);

    let mut out = Vec::new();
    out.extend_from_slice(b"FORM");
    out.extend_from_slice(&(body.len() as u32).to_be_bytes());
    out.extend_from_slice(&body);
    out
}

/// And a minimal CAF: the Apple container, also big endian, with a desc chunk saying what
/// the data chunk holds.
fn caf() -> Vec<u8> {
    let samples = pcm();
    let mut out = Vec::new();
    out.extend_from_slice(b"caff");
    out.extend_from_slice(&1u16.to_be_bytes()); // version
    out.extend_from_slice(&0u16.to_be_bytes()); // flags

    let mut desc = Vec::new();
    desc.extend_from_slice(&44_100f64.to_be_bytes());
    desc.extend_from_slice(b"lpcm");
    desc.extend_from_slice(&2u32.to_be_bytes()); // big endian, signed integer
    desc.extend_from_slice(&2u32.to_be_bytes()); // bytes per packet
    desc.extend_from_slice(&1u32.to_be_bytes()); // frames per packet
    desc.extend_from_slice(&1u32.to_be_bytes()); // channels
    desc.extend_from_slice(&16u32.to_be_bytes()); // bits per channel
    out.extend_from_slice(b"desc");
    out.extend_from_slice(&(desc.len() as i64).to_be_bytes());
    out.extend_from_slice(&desc);

    let mut data = Vec::new();
    data.extend_from_slice(&0u32.to_be_bytes()); // edit count
    for sample in &samples {
        data.extend_from_slice(&sample.to_be_bytes());
    }
    out.extend_from_slice(b"data");
    out.extend_from_slice(&(data.len() as i64).to_be_bytes());
    out.extend_from_slice(&data);
    out
}

fn singles(values: &[f32]) -> Vec<Single> {
    values.iter().map(|v| single(*v)).collect()
}

/// A mono packet in a stereo file is doubled, a wide one loses all but its front pair, and a
/// wide one in a mono file is averaged.
#[test]
fn packets_are_folded_to_at_most_stereo() {
    let mut stereo = Decoding::new(Some(48_000), Some(6));
    assert_eq!(stereo.channels(), 2);
    stereo.append(0, 2, &singles(&[0.1, 0.2]), &Vec::new());
    stereo.append(44_100, 1, &singles(&[0.3, 0.4]), &Vec::new());
    stereo.append(0, 3, &singles(&[0.5, 0.6, 9.0, 0.7, 0.8, 9.0]), &Vec::new());
    let sample = stereo.finish("x/loop.flac").unwrap();
    assert_eq!(
        sample.data,
        singles(&[0.1, 0.2, 0.3, 0.3, 0.4, 0.4, 0.5, 0.6, 0.7, 0.8])
    );
    assert_eq!(sample.source_rate, 44_100, "a packet has the last word");
    assert_eq!(sample.frames, 5);

    let mut mono = Decoding::new(None, Some(1));
    mono.append(0, 2, &singles(&[0.2, 0.4]), &singles(&[0.3]));
    let sample = mono.finish("y").unwrap();
    assert_eq!(sample.data, singles(&[0.3]));
    assert_eq!(sample.source_rate, 44_100);
    assert_eq!(sample.name, "y");

    assert_eq!(folding(0, 1), Folding::AsIs);
    assert_eq!(folding(1, 2), Folding::Twice);
    assert_eq!(folding(2, 1), Folding::Average);
    assert_eq!(folding(6, 2), Folding::FrontPair);
}

#[test]
fn a_file_with_nothing_in_it_is_no_sample() {
    assert!(Decoding::new(None, None).finish("x.wav").is_none());
    let mut odd = Decoding::new(None, None);
    odd.append(0, 2, &singles(&[0.5, 0.5]), &Vec::new());
    assert_eq!(odd.finish("/").unwrap().name, "sample");
}

#[test]
fn what_is_done_about_each_packet() {
    assert_eq!(reading(Packet::End), Reading::Finish);
    assert_eq!(reading(Packet::CutShort), Reading::Finish);
    assert_eq!(reading(Packet::Foreign), Reading::Skip);
    assert_eq!(reading(Packet::Damaged), Reading::Skip);
    assert_eq!(reading(Packet::Decoded), Reading::Append);
    assert_eq!(reading(Packet::Unreadable), Reading::Fail);
    assert_eq!(reading(Packet::Undecodable), Reading::Fail);
}

/// The waveform has the loudest of each stretch, and nothing in it is louder than the peak.
#[test]
fn the_waveform_is_the_loudest_of_each_stretch() {
    let mut values = vec![0.25f32; 960];
    values[5] = -0.75;
    values[959] = 0.5;
    let sample = Sample::from_data("tone", 44_100, 1, singles(&values));
    assert_eq!(number(sample.peak), 0.75);
    assert_eq!(number(sample.peaks[0]), 0.75);
    assert_eq!(number(sample.peaks[1]), 0.25);
    assert_eq!(number(sample.peaks[95]), 0.5);

    // Fewer frames than points: one to a point, and silence in the rest.
    let short = Sample::from_data("short", 44_100, 2, singles(&[0.1, -0.2, 0.3, 0.0]));
    assert_eq!(short.frames, 2);
    assert_eq!(number(short.peaks[0]), 0.2);
    assert_eq!(number(short.peaks[1]), 0.3);
    assert_eq!(number(short.peaks[2]), 0.0);

    let broken = Sample::from_data("broken", 0, 1, singles(&[f32::NAN, 0.5]));
    assert_eq!(number(broken.peak), 0.5);
    assert_eq!(broken.duration(), None);
    assert_eq!(Sample::from_data("none", 1, 9, Vec::new()).channels, 2);
}
