use czkawka::fingerprinting::{
    select_track, FingerprintError, FingerprintRun, StartRefusal, StreamAction, StreamEvent,
    TrackInfo,
};

fn track(id: u32, has_codec: bool, sample_rate: Option<u32>, channels: Option<u8>) -> TrackInfo {
    TrackInfo { id, has_codec, sample_rate, channels }
}

/// A few seconds of a tone that rises.
fn tone(frames: usize, channels: usize) -> Vec<i16> {
    let mut samples = Vec::with_capacity(frames * channels);
    for i in 0..frames {
        let t = i as f64 / 11025.0;
        let value = ((t * (400.0 + 60.0 * t) * 6.283).sin() * 8000.0) as i16;
        for _ in 0..channels {
            samples.push(value);
        }
    }
    samples
}

fn fingerprint_of(run: &mut FingerprintRun, packets: Vec<Vec<i16>>) -> Vec<u32> {
    for samples in packets {
        assert!(matches!(
            run.step(StreamEvent::Packet { track_id: 3 }),
            StreamAction::DecodePacket
        ));
        assert!(matches!(run.step(StreamEvent::Samples(samples)), StreamAction::ReadPacket));
    }
    match run.step(StreamEvent::EndOfStream) {
        StreamAction::Finished(fingerprint) => fingerprint,
        other => panic!("{other:?}"),
    }
}

#[test]
fn the_first_track_with_a_codec_is_taken() {
    let tracks = vec![
        track(1, false, None, None),
        track(3, true, Some(44100), Some(2)),
        track(4, true, Some(44100), Some(2)),
    ];
    assert_eq!(select_track(&tracks), Ok(1));
    assert_eq!(
        select_track(&vec![track(1, false, None, None)]),
        Err(FingerprintError::NoSupportedTrack)
    );
    assert_eq!(select_track(&vec![]), Err(FingerprintError::NoSupportedTrack));
}

#[test]
fn a_track_has_to_say_what_it_holds() {
    let error = |t: TrackInfo| FingerprintRun::start(&t).err().unwrap();
    assert_eq!(error(track(3, true, None, None)), FingerprintError::MissingSampleRate);
    assert_eq!(error(track(3, true, Some(44100), None)), FingerprintError::MissingChannels);
    assert_eq!(
        error(track(3, true, Some(44100), Some(0))),
        FingerprintError::Initializing(StartRefusal::NoChannels)
    );
    assert_eq!(
        error(track(3, true, Some(1000), Some(2))),
        FingerprintError::Initializing(StartRefusal::SampleRateTooLow)
    );
    assert!(FingerprintRun::start(&track(3, true, Some(1001), Some(1))).is_ok());
}

#[test]
fn errors_in_words() {
    assert_eq!(FingerprintError::NoSupportedTrack.describe(), "no supported audio tracks");
    assert_eq!(FingerprintError::MissingSampleRate.describe(), "missing sample rate");
    assert_eq!(FingerprintError::MissingChannels.describe(), "missing audio channels");
    assert_eq!(
        FingerprintError::Initializing(StartRefusal::NoChannels).describe(),
        "initializing fingerprinter"
    );
}

#[test]
fn a_stream_becomes_a_fingerprint() {
    let stereo = track(3, true, Some(11025), Some(2));
    let mut run = FingerprintRun::start(&stereo).unwrap();
    assert_eq!(run.get_channels(), 2);
    let whole = fingerprint_of(&mut run, vec![tone(11025 * 10, 2)]);
    assert!(whole.len() > 40);
    assert!(whole.iter().any(|item| *item != whole[0]));

    // Two packets with half of the samples each come to the same.
    let all = tone(11025 * 10, 2);
    let half = all.len() / 2;
    let mut run = FingerprintRun::start(&stereo).unwrap();
    let split = fingerprint_of(&mut run, vec![all[..half].to_vec(), all[half..].to_vec()]);
    assert_eq!(split, whole);

    // Nothing in, nothing out.
    let mut run = FingerprintRun::start(&stereo).unwrap();
    assert!(fingerprint_of(&mut run, vec![]).is_empty());
}

#[test]
fn skipped_packets_leave_no_trace() {
    let mono = track(3, true, Some(11025), Some(1));
    let mut run = FingerprintRun::start(&mono).unwrap();
    let plain = fingerprint_of(&mut run, vec![tone(11025 * 6, 1)]);
    let mut run = FingerprintRun::start(&mono).unwrap();
    assert!(matches!(run.step(StreamEvent::Packet { track_id: 9 }), StreamAction::ReadPacket));
    assert!(matches!(run.step(StreamEvent::Packet { track_id: 3 }), StreamAction::DecodePacket));
    assert!(matches!(run.step(StreamEvent::DamagedPacket), StreamAction::ReadPacket));
    assert_eq!(fingerprint_of(&mut run, vec![tone(11025 * 6, 1)]), plain);
}

#[test]
fn a_failed_decoder_ends_the_stream() {
    let mono = track(3, true, Some(11025), Some(1));
    let mut run = FingerprintRun::start(&mono).unwrap();
    let plain = fingerprint_of(&mut run, vec![tone(11025 * 6, 1)]);
    let mut run = FingerprintRun::start(&mono).unwrap();
    assert!(matches!(
        run.step(StreamEvent::Samples(tone(11025 * 6, 1))),
        StreamAction::ReadPacket
    ));
    match run.step(StreamEvent::DecoderFailed) {
        StreamAction::Finished(fingerprint) => assert_eq!(fingerprint, plain),
        other => panic!("{other:?}"),
    }
}

#[test]
fn the_number_of_items_follows_from_the_samples() {
    // Frames of 4096 samples begin every 1365 samples; nineteen come before the first item.
    for (frames, channels, items) in [
        (4095, 1, 0),
        (4096 + 18 * 1365, 1, 0),
        (4096 + 19 * 1365 - 1, 1, 0),
        (4096 + 19 * 1365, 1, 1),
        (4096 + 30 * 1365 + 700, 2, 12),
        (4096 + 30 * 1365 + 700, 3, 12),
    ] {
        let mut run = FingerprintRun::start(&track(3, true, Some(11025), Some(channels))).unwrap();
        let all = tone(frames, channels as usize);
        let middle = all.len() / 3 / channels as usize * channels as usize;
        let fingerprint = fingerprint_of(
            &mut run,
            vec![all[..middle].to_vec(), all[middle..].to_vec()],
        );
        assert_eq!(fingerprint.len(), items);
    }
}

#[test]
fn the_sample_rate_counts() {
    let samples = tone(44100 * 6, 1);
    let mut run = FingerprintRun::start(&track(3, true, Some(44100), Some(1))).unwrap();
    let high = fingerprint_of(&mut run, vec![samples.clone()]);
    let mut run = FingerprintRun::start(&track(3, true, Some(11025), Some(1))).unwrap();
    let low = fingerprint_of(&mut run, vec![samples]);
    assert!(low.len() > 3 * high.len());
}
