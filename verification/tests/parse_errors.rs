use osurate::beatmap::parser::ParseError;
use osurate::beatmap::Beatmap;

fn valid() -> String {
    [
        "osu file format v14",
        "[General]",
        "AudioFilename: a.mp3",
        "PreviewTime: -1",
        "[Editor]",
        "[Metadata]",
        "Version:Easy",
        "[Difficulty]",
        "[Events]",
        "[TimingPoints]",
        "[HitObjects]",
        "",
    ]
    .join("\n")
}

#[test]
fn wrong_version_is_unsupported_not_invalid() {
    let text = valid().replace("osu file format v14", "osu file format v9");
    assert_eq!(
        Beatmap::parse(text.as_bytes()).unwrap_err(),
        ParseError::UnsupportedVersion
    );
}

#[test]
fn missing_magic_is_invalid() {
    let text = valid().replace("osu file format v14", "totally different v14");
    assert_eq!(
        Beatmap::parse(text.as_bytes()).unwrap_err(),
        ParseError::InvalidBeatmap
    );
}

#[test]
fn sections_out_of_order_are_invalid() {
    let text = valid().replace("[Editor]", "[Events]").replace("[Events]\n[TimingPoints]", "[Editor]\n[TimingPoints]");
    assert_eq!(
        Beatmap::parse(text.as_bytes()).unwrap_err(),
        ParseError::InvalidBeatmap
    );
}

#[test]
fn missing_audio_filename_is_invalid() {
    let text = valid().replace("AudioFilename: a.mp3\n", "");
    assert_eq!(
        Beatmap::parse(text.as_bytes()).unwrap_err(),
        ParseError::InvalidBeatmap
    );
}

#[test]
fn missing_version_label_is_invalid() {
    let text = valid().replace("Version:Easy\n", "");
    assert_eq!(
        Beatmap::parse(text.as_bytes()).unwrap_err(),
        ParseError::InvalidBeatmap
    );
}

#[test]
fn malformed_timing_point_is_invalid() {
    let text = valid().replace("[TimingPoints]", "[TimingPoints]\n1000,500");
    assert_eq!(
        Beatmap::parse(text.as_bytes()).unwrap_err(),
        ParseError::InvalidBeatmap
    );
}

#[test]
fn non_numeric_timing_point_time_is_invalid() {
    let text = valid().replace("[TimingPoints]", "[TimingPoints]\nabc,500,rest");
    assert_eq!(
        Beatmap::parse(text.as_bytes()).unwrap_err(),
        ParseError::InvalidBeatmap
    );
}

#[test]
fn hit_object_with_unknown_type_bits_is_invalid() {
    let text = valid().replace("[HitObjects]", "[HitObjects]\n256,192,1000,64,0,0:0:0:0:");
    assert_eq!(
        Beatmap::parse(text.as_bytes()).unwrap_err(),
        ParseError::InvalidBeatmap
    );
}

#[test]
fn long_note_without_colon_field_is_invalid() {
    let text = valid().replace("[HitObjects]", "[HitObjects]\n256,192,1000,128,0,5000");
    assert_eq!(
        Beatmap::parse(text.as_bytes()).unwrap_err(),
        ParseError::InvalidBeatmap
    );
}

#[test]
fn content_after_hit_objects_is_invalid() {
    let text = valid() + "[Colours]\nCombo1 : 1,2,3\n";
    assert_eq!(
        Beatmap::parse(text.as_bytes()).unwrap_err(),
        ParseError::InvalidBeatmap
    );
}

#[test]
fn fractional_timing_point_time_is_truncated() {
    let text = valid().replace("[TimingPoints]", "[TimingPoints]\n1000.75,500,rest");
    let map = Beatmap::parse(text.as_bytes()).unwrap();
    assert_eq!(map.timing_points[0].time, 1000);
}

#[test]
fn empty_input_is_invalid() {
    assert_eq!(
        Beatmap::parse(b"").unwrap_err(),
        ParseError::InvalidBeatmap
    );
}
