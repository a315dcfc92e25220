use osurate::beatmap::Beatmap;
use osurate::numbers::Rate;

fn minimal_map(timing_line: &str, hit_line: &str) -> String {
    [
        "osu file format v14",
        "",
        "[General]",
        "AudioFilename: audio.mp3",
        "PreviewTime: 1000",
        "",
        "[Editor]",
        "",
        "[Metadata]",
        "Version:Hard",
        "",
        "[Difficulty]",
        "",
        "[Events]",
        "",
        "[TimingPoints]",
        timing_line,
        "",
        "[HitObjects]",
        hit_line,
        "",
    ]
    .join("\n")
}

fn serialized_after_rate(text: &str, rate_text: &str) -> String {
    let mut map = Beatmap::parse(text.as_bytes()).expect("map should parse");
    let rate = Rate::from_text(rate_text.as_bytes()).expect("rate should be accepted");
    assert!(map.change_rate(&rate));
    String::from_utf8(map.into_string()).unwrap()
}

#[test]
fn basic_rate_up_rescales_time_and_beat_length() {
    let text = minimal_map("1000,500,4,2,0,100,1,0", "256,192,1000,1,0,0:0:0:0:");
    let out = serialized_after_rate(&text, "2");
    // floor(1000 / 2) + 75 = 575; 500 / 2 = 250.
    assert!(out.contains("575,250,4,2,0,100,1,0"), "got: {}", out);
    assert!(out.contains("256,192,575,1,0,0:0:0:0:"), "got: {}", out);
    assert!(out.contains("PreviewTime: 575"), "got: {}", out);
    assert!(out.contains("Version:Hard (2x)"), "got: {}", out);
}

#[test]
fn long_note_end_time_is_rewritten_in_place() {
    let text = minimal_map("1000,500,4,2,0,100,1,0", "30,192,2000,128,0,5000:0:0:0:");
    let out = serialized_after_rate(&text, "1.25");
    // floor(5000 / 1.25) + 75 = 4075, with the trailing ":0:0:0:" kept.
    assert!(out.contains("4075:0:0:0:"), "got: {}", out);
    // floor(2000 / 1.25) + 75 = 1675.
    assert!(out.contains("30,192,1675,128,0,4075:0:0:0:"), "got: {}", out);
    assert!(out.contains("Version:Hard (1.25x)"), "got: {}", out);
}

#[test]
fn spinner_end_time_is_rescaled() {
    let text = minimal_map("1000,500,4,2,0,100,1,0", "100,100,1500,8,0,3000,0:0:0:0:");
    let out = serialized_after_rate(&text, "2");
    // floor(1500 / 2) + 75 = 825; floor(3000 / 2) + 75 = 1575.
    assert!(out.contains("100,100,825,8,0,1575,0:0:0:0:"), "got: {}", out);
}

#[test]
fn inherited_timing_points_keep_their_beat_length() {
    let text = minimal_map("2000,-50,4,2,0,100,0,0", "256,192,1000,1,0,0:0:0:0:");
    let out = serialized_after_rate(&text, "2");
    // floor(2000 / 2) + 75 = 1075; the negative multiplier is untouched.
    assert!(out.contains("1075,-50,4,2,0,100,0,0"), "got: {}", out);
}

#[test]
fn rate_below_one_stretches_times_up() {
    let text = minimal_map("1000,500,4,2,0,100,1,0", "256,192,1000,1,0,0:0:0:0:");
    let out = serialized_after_rate(&text, "0.5");
    // floor(1000 / 0.5) + 75 = 2075; 500 / 0.5 = 1000.
    assert!(out.contains("2075,1000,4,2,0,100,1,0"), "got: {}", out);
}

#[test]
fn unset_preview_time_is_left_alone() {
    let text = minimal_map("1000,500,4,2,0,100,1,0", "256,192,1000,1,0,0:0:0:0:")
        .replace("PreviewTime: 1000", "PreviewTime: -1");
    let out = serialized_after_rate(&text, "2");
    assert!(out.contains("PreviewTime: -1"), "got: {}", out);
}

#[test]
fn each_rate_starts_from_an_independent_copy() {
    let text = minimal_map("1000,500,4,2,0,100,1,0", "256,192,1000,1,0,0:0:0:0:");
    let parsed = Beatmap::parse(text.as_bytes()).unwrap();
    let rate = Rate::from_text(b"2").unwrap();
    let mut first = parsed.clone();
    let mut second = parsed.clone();
    assert!(first.change_rate(&rate));
    assert!(second.change_rate(&rate));
    assert_eq!(first.into_string(), second.into_string());
}

#[test]
fn accepted_and_rejected_rates() {
    assert_eq!(Rate::from_text(b"1.2"), Some(Rate { mant: 12, scale: 1 }));
    assert_eq!(Rate::from_text(b"2.0"), Some(Rate { mant: 2, scale: 0 }));
    assert_eq!(Rate::from_text(b"0.01"), Some(Rate { mant: 1, scale: 2 }));
    assert_eq!(Rate::from_text(b"0.005"), None);
    assert_eq!(Rate::from_text(b"0"), None);
    assert_eq!(Rate::from_text(b"-1"), None);
    assert_eq!(Rate::from_text(b"1.1025"), None);
    assert_eq!(Rate::from_text(b"nope"), None);
}
