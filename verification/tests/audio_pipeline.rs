use osurate::audio::{
    assemble_pcm, capped_bitrate, chunk_size_for, concat_pairs, decode_mp3, expand_mono,
    split_chunks, stretched_audio_name, AudioFrame, AudioStretchError,
};
use osurate::numbers::Rate;

fn frame(data: Vec<i16>, channels: usize) -> AudioFrame {
    AudioFrame { data, channels, sample_rate: 44100, bitrate: 192 }
}

#[test]
fn three_channels_are_rejected() {
    let frames = vec![frame(vec![1, 2, 3], 3)];
    assert_eq!(
        assemble_pcm(frames).unwrap_err(),
        AudioStretchError::UnsupportedChannelCount
    );
}

#[test]
fn many_channels_are_rejected() {
    let frames = vec![frame(vec![0; 12], 6)];
    assert_eq!(
        assemble_pcm(frames).unwrap_err(),
        AudioStretchError::UnsupportedChannelCount
    );
}

#[test]
fn zero_frames_are_an_invalid_source() {
    assert_eq!(
        assemble_pcm(Vec::new()).unwrap_err(),
        AudioStretchError::InvalidSource
    );
}

#[test]
fn samples_are_gathered_in_source_order() {
    let frames = vec![frame(vec![1, 2], 2), frame(vec![3, 4], 2), frame(vec![5, 6], 2)];
    let d = assemble_pcm(frames).unwrap();
    assert_eq!(d.samples, vec![1, 2, 3, 4, 5, 6]);
    assert_eq!(d.channels, 2);
    assert_eq!(d.sample_rate, 44100);
    assert_eq!(d.bitrate, 192);
}

#[test]
fn garbage_bytes_are_an_invalid_source() {
    let data = vec![0x13u8; 4096];
    assert_eq!(decode_mp3(data).unwrap_err(), AudioStretchError::InvalidSource);
}

#[test]
fn chunks_concatenate_back_to_the_input() {
    let samples: Vec<i16> = (1..=7).collect();
    let chunks = split_chunks(&samples, 3);
    assert_eq!(chunks, vec![vec![1, 2, 3], vec![4, 5, 6], vec![7]]);
    let flat: Vec<i16> = chunks.into_iter().flatten().collect();
    assert_eq!(flat, samples);
}

#[test]
fn degenerate_inputs_do_not_panic() {
    assert_eq!(split_chunks(&[], 4), Vec::<Vec<i16>>::new());
    assert_eq!(split_chunks(&[9], 4), vec![vec![9]]);
    assert_eq!(chunk_size_for(0, 8), 1);
}

#[test]
fn chunk_size_spreads_samples_over_workers() {
    assert_eq!(chunk_size_for(10, 3), 4);
    assert_eq!(chunk_size_for(12, 3), 4);
    assert_eq!(chunk_size_for(1, 8), 1);
}

#[test]
fn recombination_keeps_dispatch_order() {
    let chunks = vec![vec![(1, 2), (3, 4)], vec![], vec![(5, 6)]];
    let (l, r) = concat_pairs(chunks);
    assert_eq!(l, vec![1, 3, 5]);
    assert_eq!(r, vec![2, 4, 6]);
}

#[test]
fn mono_is_expanded_to_identical_channels() {
    assert_eq!(expand_mono(&[7, -3]), vec![7, 7, -3, -3]);
}

#[test]
fn bitrate_is_capped() {
    assert_eq!(capped_bitrate(192), 128);
    assert_eq!(capped_bitrate(128), 128);
    assert_eq!(capped_bitrate(96), 96);
}

#[test]
fn stretched_name_replaces_the_decimal_point() {
    let rate = Rate::from_text(b"1.2").unwrap();
    let name = stretched_audio_name(b"audio.mp3", &rate).unwrap();
    assert_eq!(name, b"audio_1_2.mp3".to_vec());
}

#[test]
fn stretched_name_for_integer_rate() {
    let rate = Rate::from_text(b"2").unwrap();
    let name = stretched_audio_name(b"some.track.mp3", &rate).unwrap();
    assert_eq!(name, b"some.track_2.mp3".to_vec());
}

#[test]
fn name_without_extension_is_refused() {
    let rate = Rate::from_text(b"2").unwrap();
    assert_eq!(stretched_audio_name(b"audio", &rate), None);
    assert_eq!(stretched_audio_name(b".mp3", &rate), None);
}

#[test]
fn silent_frames_decode_to_pcm() {
    // A few MPEG-1 layer III frames, 44.1 kHz joint stereo at 128 kbps, with
    // zeroed side information and payload: a silent stream.
    let mut data = Vec::new();
    for _ in 0..4 {
        let mut frame = vec![0u8; 417];
        frame[0] = 0xff;
        frame[1] = 0xfb;
        frame[2] = 0x90;
        frame[3] = 0x40;
        data.extend_from_slice(&frame);
    }
    match decode_mp3(data) {
        Ok(d) => {
            assert!(d.channels <= 2);
            assert!(!d.samples.is_empty());
        }
        Err(e) => assert_eq!(e, AudioStretchError::InvalidSource),
    }
}
