use osurate::beatmap::Beatmap;

fn sample_text() -> String {
    [
        "osu file format v14",
        "",
        "[General]",
        "AudioFilename: audio.mp3",
        "PreviewTime: -1",
        "StackLeniency: 0.7",
        "",
        "[Editor]",
        "DistanceSpacing: 0.8",
        "BeatDivisor: 4",
        "",
        "[Metadata]",
        "Version:Insane",
        "Title:Some Song",
        "Creator:Someone",
        "",
        "[Difficulty]",
        "HPDrainRate:5",
        "OverallDifficulty:7",
        "",
        "[Events]",
        "0,0,\"bg.jpg\",0,0",
        "",
        "[TimingPoints]",
        "1000,500,4,2,0,100,1,0",
        "2000,-50,4,2,0,100,0,0",
        "",
        "[HitObjects]",
        "256,192,1000,1,0,0:0:0:0:",
        "100,100,1500,8,0,3000,0:0:0:0:",
        "30,192,2000,128,0,5000:0:0:0:",
        "",
    ]
    .join("\n")
}

#[test]
fn round_trip_is_byte_identical() {
    let text = sample_text();
    let map = Beatmap::parse(text.as_bytes()).expect("sample should parse");
    let out = map.into_string();
    assert_eq!(String::from_utf8(out).unwrap(), text);
}

#[test]
fn round_trip_with_colours_section() {
    let text = sample_text().replace(
        "[HitObjects]",
        "[Colours]\nCombo1 : 255,128,0\n\n[HitObjects]",
    );
    let map = Beatmap::parse(text.as_bytes()).expect("sample with colours should parse");
    let out = map.into_string();
    assert_eq!(String::from_utf8(out).unwrap(), text);
}

#[test]
fn reparse_of_serialized_output_is_stable() {
    // Comments and stray blank lines are dropped, so the text itself is not
    // preserved; the serialized forms of both parses must agree exactly.
    let noisy = sample_text().replace(
        "[TimingPoints]\n1000",
        "[TimingPoints]\n// a comment\n\n1000",
    );
    let first = Beatmap::parse(noisy.as_bytes()).expect("noisy sample should parse");
    let once = first.into_string();
    let second = Beatmap::parse(&once).expect("serialized output should reparse");
    let twice = second.into_string();
    assert_eq!(once, twice);
}

#[test]
fn byte_order_mark_is_stripped() {
    let mut bytes = vec![0xef, 0xbb, 0xbf];
    bytes.extend_from_slice(sample_text().as_bytes());
    let map = Beatmap::parse(&bytes).expect("sample with BOM should parse");
    assert_eq!(map.metadata.diff_name, b"Insane".to_vec());
}

#[test]
fn parser_can_be_driven_directly() {
    let text = sample_text();
    let mut parser = osurate::beatmap::Parser::new(text.as_bytes());
    let map = parser.parse().expect("sample should parse");
    assert_eq!(map.metadata.diff_name, b"Insane".to_vec());
}

#[test]
fn parsed_fields_match_source() {
    let map = Beatmap::parse(sample_text().as_bytes()).unwrap();
    assert_eq!(map.general_info.audio_file, b"audio.mp3".to_vec());
    assert_eq!(map.general_info.preview_time, -1);
    assert_eq!(map.timing_points.len(), 2);
    assert_eq!(map.timing_points[0].time, 1000);
    assert!(!map.timing_points[0].beat_len.neg);
    assert_eq!(map.timing_points[0].beat_len.mant, 500);
    assert_eq!(map.timing_points[0].beat_len.scale, 0);
    assert!(map.timing_points[1].beat_len.neg);
    assert_eq!(map.hit_objects.len(), 3);
    assert_eq!(map.hit_objects[0].time, 1000);
    assert_eq!(map.hit_objects[1].time, 1500);
    assert!(map.colors.is_none());
}
