//! The beatmap data model: typed timing-relevant fields with verbatim
//! remainder text for everything else, the serializer that renders a record
//! back to its on-disk layout, and the rate transform that rescales every
//! timing field.

use vstd::prelude::*;
use vstd::string::StringSliceAdditionalSpecFns;

use crate::numbers::{
    decimal_text, dec_digits, int_digits, spec_div_dec, spec_new_time, Decimal, Rate, TIME_MAX,
};
use crate::text::{
    push_line,
    ascii_bytes, emit_lines, is_ws, kept_ok, no_byte, no_nl, COLON, COMMA, NL, SPACE,
};

pub use crate::beatmap::parser::{ParseError, Parser};

pub mod parser;

verus! {

/// A line in brackets, ending a section while parsing.
pub open spec fn is_header(l: Seq<u8>) -> bool {
    l.len() >= 1 && l[0] == 91 && l[l.len() - 1] == 93
}

pub open spec fn version_line() -> Seq<u8> {
    ascii_bytes("osu file format v14"@)
}

pub open spec fn magic_prefix() -> Seq<u8> {
    ascii_bytes("osu file format v"@)
}

pub open spec fn hdr_general() -> Seq<u8> {
    ascii_bytes("[General]"@)
}

pub open spec fn hdr_editor() -> Seq<u8> {
    ascii_bytes("[Editor]"@)
}

pub open spec fn hdr_metadata() -> Seq<u8> {
    ascii_bytes("[Metadata]"@)
}

pub open spec fn hdr_difficulty() -> Seq<u8> {
    ascii_bytes("[Difficulty]"@)
}

pub open spec fn hdr_events() -> Seq<u8> {
    ascii_bytes("[Events]"@)
}

pub open spec fn hdr_timing_points() -> Seq<u8> {
    ascii_bytes("[TimingPoints]"@)
}

pub open spec fn hdr_colours() -> Seq<u8> {
    ascii_bytes("[Colours]"@)
}

pub open spec fn hdr_hit_objects() -> Seq<u8> {
    ascii_bytes("[HitObjects]"@)
}

pub open spec fn key_audio_file() -> Seq<u8> {
    ascii_bytes("AudioFilename"@)
}

pub open spec fn key_preview_time() -> Seq<u8> {
    ascii_bytes("PreviewTime"@)
}

pub open spec fn key_version() -> Seq<u8> {
    ascii_bytes("Version"@)
}

/// The section-free representation of one `[General]` block: the audio file
/// reference and preview time, with every other line kept verbatim.
#[verifier::ext_equal]
pub ghost struct GeneralM {
    pub audio_file: Seq<u8>,
    pub preview_time: int,
    pub rest: Seq<Seq<u8>>,
}

#[verifier::ext_equal]
pub ghost struct MetadataM {
    pub diff_name: Seq<u8>,
    pub rest: Seq<Seq<u8>>,
}

#[verifier::ext_equal]
pub ghost struct TimingPointM {
    pub time: int,
    pub beat_len: Decimal,
    pub rest: Seq<u8>,
}

#[verifier::ext_equal]
pub ghost enum HitObjectParamsM {
    NoneUseful,
    Spinner(int),
    LongNote(int),
}

#[verifier::ext_equal]
pub ghost struct HitObjectM {
    pub x: Seq<u8>,
    pub y: Seq<u8>,
    pub time: int,
    pub kind: u32,
    pub sound: Seq<u8>,
    pub params: HitObjectParamsM,
    pub tail: Seq<u8>,
}

#[verifier::ext_equal]
pub ghost struct BeatmapM {
    pub general: GeneralM,
    pub editor: Seq<Seq<u8>>,
    pub metadata: MetadataM,
    pub difficulty: Seq<Seq<u8>>,
    pub events: Seq<Seq<u8>>,
    pub timing_points: Seq<TimingPointM>,
    pub colors: Option<Seq<Seq<u8>>>,
    pub hit_objects: Seq<HitObjectM>,
}

/// The `[General]` section: audio file reference, preview time, remainder.
#[derive(Clone, Debug)]
pub struct GeneralInfo {
    pub audio_file: Vec<u8>,
    pub preview_time: i64,
    pub rest: Vec<Vec<u8>>,
}

/// The `[Editor]` section, kept verbatim.
#[derive(Clone, Debug)]
pub struct EditorInfo(pub Vec<Vec<u8>>);

/// The `[Metadata]` section: the difficulty label, remainder verbatim.
#[derive(Clone, Debug)]
pub struct Metadata {
    pub diff_name: Vec<u8>,
    pub rest: Vec<Vec<u8>>,
}

/// The `[Difficulty]` section, kept verbatim.
#[derive(Clone, Debug)]
pub struct DifficultyInfo(pub Vec<Vec<u8>>);

/// The `[Events]` section, kept verbatim.
#[derive(Clone, Debug)]
pub struct Events(pub Vec<Vec<u8>>);

/// One timing point: its time, beat length, and the verbatim trailing fields.
#[derive(Clone, Debug)]
pub struct TimingPoint {
    pub time: i64,
    pub beat_len: Decimal,
    pub rest: Vec<u8>,
}

/// The optional `[Colours]` section, kept verbatim.
#[derive(Clone, Debug)]
pub struct Colors(pub Vec<Vec<u8>>);

/// The variant-specific payload of a hit object.
#[derive(Clone, Debug)]
pub enum HitObjectParams {
    NoneUseful,
    Spinner(i64),
    LongNote(i64),
}

/// One hit object: its start time and variant payload, with the position,
/// type mask, hit sound and trailing fields kept as parsed.
#[derive(Clone, Debug)]
pub struct HitObject {
    pub time: i64,
    pub params: HitObjectParams,
    pub x: Vec<u8>,
    pub y: Vec<u8>,
    pub kind: u32,
    pub sound: Vec<u8>,
    pub tail: Vec<u8>,
}

/// A parsed beatmap: every section in source order.
#[derive(Clone, Debug)]
pub struct Beatmap {
    pub general_info: GeneralInfo,
    pub editor_info: EditorInfo,
    pub metadata: Metadata,
    pub difficulty: DifficultyInfo,
    pub events: Events,
    pub timing_points: Vec<TimingPoint>,
    pub colors: Option<Colors>,
    pub hit_objects: Vec<HitObject>,
}

impl View for GeneralInfo {
    type V = GeneralM;

    open spec fn view(&self) -> GeneralM {
        GeneralM {
            audio_file: self.audio_file@,
            preview_time: self.preview_time as int,
            rest: self.rest.deep_view(),
        }
    }
}

impl View for Metadata {
    type V = MetadataM;

    open spec fn view(&self) -> MetadataM {
        MetadataM { diff_name: self.diff_name@, rest: self.rest.deep_view() }
    }
}

impl View for TimingPoint {
    type V = TimingPointM;

    open spec fn view(&self) -> TimingPointM {
        TimingPointM { time: self.time as int, beat_len: self.beat_len, rest: self.rest@ }
    }
}

impl View for HitObjectParams {
    type V = HitObjectParamsM;

    open spec fn view(&self) -> HitObjectParamsM {
        match self {
            HitObjectParams::NoneUseful => HitObjectParamsM::NoneUseful,
            HitObjectParams::Spinner(e) => HitObjectParamsM::Spinner(*e as int),
            HitObjectParams::LongNote(e) => HitObjectParamsM::LongNote(*e as int),
        }
    }
}

impl View for HitObject {
    type V = HitObjectM;

    open spec fn view(&self) -> HitObjectM {
        HitObjectM {
            x: self.x@,
            y: self.y@,
            time: self.time as int,
            kind: self.kind,
            sound: self.sound@,
            params: self.params@,
            tail: self.tail@,
        }
    }
}

impl View for Beatmap {
    type V = BeatmapM;

    open spec fn view(&self) -> BeatmapM {
        BeatmapM {
            general: self.general_info@,
            editor: self.editor_info.0.deep_view(),
            metadata: self.metadata@,
            difficulty: self.difficulty.0.deep_view(),
            events: self.events.0.deep_view(),
            timing_points: self.timing_points@.map_values(|tp: TimingPoint| tp@),
            colors: match self.colors {
                Some(ref c) => Some(c.0.deep_view()),
                None => None,
            },
            hit_objects: self.hit_objects@.map_values(|h: HitObject| h@),
        }
    }
}

/// A content line of a verbatim section: kept by the reader and not a header.
pub open spec fn section_line_ok(l: Seq<u8>) -> bool {
    kept_ok(l) && !is_header(l)
}

pub open spec fn section_lines_ok(ls: Seq<Seq<u8>>) -> bool {
    forall|i: int| 0 <= i < ls.len() ==> section_line_ok(#[trigger] ls[i])
}

/// Index of the first `": "` separator in `l`, or `l.len()` if none.
pub open spec fn find_kv_sep(l: Seq<u8>) -> int
    decreases l.len(),
{
    if l.len() < 2 {
        l.len() as int
    } else if l[0] == COLON && l[1] == SPACE {
        0
    } else {
        1 + find_kv_sep(l.subrange(1, l.len() as int))
    }
}

pub proof fn lemma_find_kv_sep(l: Seq<u8>)
    ensures
        0 <= find_kv_sep(l) <= l.len(),
        find_kv_sep(l) < l.len() ==> find_kv_sep(l) + 1 < l.len() && l[find_kv_sep(l)] == COLON
            && l[find_kv_sep(l) + 1] == SPACE,
        forall|i: int|
            0 <= i < find_kv_sep(l) && i + 1 < l.len() ==> !(#[trigger] l[i] == COLON && l[i + 1]
                == SPACE),
    decreases l.len(),
{
    if l.len() < 2 {
    } else if l[0] == COLON && l[1] == SPACE {
    } else {
        let t = l.subrange(1, l.len() as int);
        lemma_find_kv_sep(t);
        assert forall|i: int|
            0 <= i < find_kv_sep(l) && i + 1 < l.len() implies !(#[trigger] l[i] == COLON && l[i
            + 1] == SPACE) by {
            if i > 0 {
                assert(t[i - 1] == l[i] && t[i] == l[i + 1]);
            }
        }
    }
}

/// Any position preceded by no `": "` pair and holding one (or the end, when
/// the line holds none) is exactly `find_kv_sep`.
pub proof fn lemma_find_kv_sep_is(l: Seq<u8>, k: int)
    requires
        0 <= k,
        k < l.len() ==> k + 1 < l.len() && l[k] == COLON && l[k + 1] == SPACE,
        k >= l.len() ==> k == l.len() || (k == l.len() - 1 && l.len() >= 1),
        forall|i: int|
            0 <= i < k && i + 1 < l.len() ==> !(#[trigger] l[i] == COLON && l[i + 1] == SPACE),
    ensures
        k < l.len() ==> find_kv_sep(l) == k,
        k >= l.len() ==> find_kv_sep(l) == l.len(),
    decreases l.len(),
{
    if l.len() < 2 {
    } else if l[0] == COLON && l[1] == SPACE {
        assert(k == 0);
    } else {
        let t = l.subrange(1, l.len() as int);
        assert(k >= 1);
        assert forall|i: int|
            0 <= i < k - 1 && i + 1 < t.len() implies !(#[trigger] t[i] == COLON && t[i + 1]
            == SPACE) by {
            assert(t[i] == l[i + 1] && t[i + 1] == l[i + 2]);
        }
        if k < l.len() {
            assert(t[k - 1] == l[k] && t[k] == l[k + 1]);
            lemma_find_kv_sep_is(t, k - 1);
        } else {
            lemma_find_kv_sep_is(t, k - 1);
        }
    }
}

/// The key of a `Key: Value` line.
pub open spec fn kv_key(l: Seq<u8>) -> Seq<u8> {
    l.subrange(0, find_kv_sep(l))
}

/// The value of a `Key: Value` line.
pub open spec fn kv_value(l: Seq<u8>) -> Seq<u8> {
    l.subrange(find_kv_sep(l) + 2, l.len() as int)
}

/// A remainder line of the `[General]` section: a kept, non-header
/// `Key: Value` line whose key is neither structural key.
pub open spec fn general_rest_line_ok(l: Seq<u8>) -> bool {
    &&& section_line_ok(l)
    &&& find_kv_sep(l) < l.len()
    &&& kv_key(l) != key_audio_file()
    &&& kv_key(l) != key_preview_time()
}

impl GeneralM {
    pub open spec fn wf(self) -> bool {
        &&& self.audio_file.len() > 0
        &&& no_nl(self.audio_file)
        &&& !is_ws(self.audio_file[self.audio_file.len() - 1])
        &&& -(TIME_MAX as int) <= self.preview_time <= TIME_MAX as int
        &&& forall|i: int| 0 <= i < self.rest.len() ==> general_rest_line_ok(#[trigger] self.rest[i])
    }
}

/// A remainder line of the `[Metadata]` section: a kept, non-header line with
/// a colon whose key is not `Version`.
pub open spec fn metadata_rest_line_ok(l: Seq<u8>) -> bool {
    &&& section_line_ok(l)
    &&& crate::text::find_first(l, COLON) < l.len()
    &&& l.subrange(0, crate::text::find_first(l, COLON)) != key_version()
}

impl MetadataM {
    pub open spec fn wf(self) -> bool {
        &&& self.diff_name.len() > 0
        &&& no_nl(self.diff_name)
        &&& !is_ws(self.diff_name[self.diff_name.len() - 1])
        &&& forall|i: int|
            0 <= i < self.rest.len() ==> metadata_rest_line_ok(#[trigger] self.rest[i])
    }
}

impl TimingPointM {
    pub open spec fn wf(self) -> bool {
        &&& -(TIME_MAX as int) <= self.time <= TIME_MAX as int
        &&& self.beat_len.wf()
        &&& no_nl(self.rest)
        &&& self.rest.len() > 0 ==> !is_ws(self.rest[self.rest.len() - 1])
    }

    /// Transform widens the time bound and loosens the beat length.
    pub open spec fn wf_render(self) -> bool {
        &&& -100000000000000 <= self.time <= 100000000000000
        &&& self.beat_len.wf() || self.beat_len.wf_loose()
        &&& no_nl(self.rest)
        &&& self.rest.len() > 0 ==> !is_ws(self.rest[self.rest.len() - 1])
    }
}

/// The variant a type mask selects: plain when bit 0 or 1 is set, otherwise a
/// spinner when bit 3 is set, otherwise a long note when bit 7 is set.
pub open spec fn kind_matches_params(kind: u32, params: HitObjectParamsM) -> bool {
    if kind & 1 == 1 || kind & 2 == 2 {
        params is NoneUseful
    } else if kind & 8 == 8 {
        params is Spinner
    } else if kind & 128 == 128 {
        params is LongNote
    } else {
        false
    }
}

/// The long-note tail holds the end time as its leading colon-delimited
/// field: digits (optionally signed) up to a colon that comes before any
/// comma, reading back as exactly the stored end time.
pub open spec fn long_note_tail_ok(tail: Seq<u8>, end: int) -> bool {
    let c = crate::text::find_first(tail, COLON);
    &&& c < tail.len()
    &&& c < crate::text::find_first(tail, COMMA)
    &&& crate::numbers::spec_parse_int(tail.subrange(0, c), TIME_MAX) == Some(end)
}

impl HitObjectM {
    pub open spec fn wf(self) -> bool {
        &&& no_byte(self.x, COMMA) && no_nl(self.x)
        &&& no_byte(self.y, COMMA) && no_nl(self.y)
        &&& no_byte(self.sound, COMMA) && no_nl(self.sound)
        &&& no_nl(self.tail)
        &&& self.tail.len() > 0 ==> !is_ws(self.tail[self.tail.len() - 1])
        &&& -(TIME_MAX as int) <= self.time <= TIME_MAX as int
        &&& self.kind <= 2147483647
        &&& kind_matches_params(self.kind, self.params)
        &&& match self.params {
            HitObjectParamsM::NoneUseful => true,
            HitObjectParamsM::Spinner(e) => -(TIME_MAX as int) <= e <= TIME_MAX as int,
            HitObjectParamsM::LongNote(e) => -(TIME_MAX as int) <= e <= TIME_MAX as int
                && long_note_tail_ok(self.tail, e),
        }
        &&& !(self.x.len() >= 2 && self.x[0] == 47 && self.x[1] == 47)
        &&& !(self.x.len() >= 1 && self.x[0] == 91 && self.tail.len() >= 1
            && self.tail[self.tail.len() - 1] == 93)
    }

    pub open spec fn wf_render(self) -> bool {
        &&& -100000000000000 <= self.time <= 100000000000000
        &&& match self.params {
            HitObjectParamsM::NoneUseful => true,
            HitObjectParamsM::Spinner(e) => -100000000000000 <= e <= 100000000000000,
            HitObjectParamsM::LongNote(e) => -100000000000000 <= e <= 100000000000000,
        }
    }
}

impl BeatmapM {
    /// Shape of a record as parsing produces it: exactly what serialization
    /// reads back unchanged.
    pub open spec fn wf(self) -> bool {
        &&& self.general.wf()
        &&& section_lines_ok(self.editor)
        &&& self.metadata.wf()
        &&& section_lines_ok(self.difficulty)
        &&& section_lines_ok(self.events)
        &&& forall|i: int| 0 <= i < self.timing_points.len() ==> (#[trigger] self.timing_points[i]).wf()
        &&& match self.colors {
            Some(c) => section_lines_ok(c),
            None => true,
        }
        &&& forall|i: int| 0 <= i < self.hit_objects.len() ==> (#[trigger] self.hit_objects[i]).wf()
    }

    /// What serialization needs of a record: the parse shape, with the
    /// numeric bounds widened as one rate transform leaves them.
    pub open spec fn wf_render(self) -> bool {
        &&& self.general.audio_file.len() > 0
        &&& -100000000000000 <= self.general.preview_time <= 100000000000000
        &&& forall|i: int|
            0 <= i < self.timing_points.len() ==> (#[trigger] self.timing_points[i]).wf_render()
        &&& forall|i: int|
            0 <= i < self.hit_objects.len() ==> (#[trigger] self.hit_objects[i]).wf_render()
    }
}

/// The `AudioFilename` line of a rendered `[General]` section.
pub open spec fn audio_file_line(g: GeneralM) -> Seq<u8> {
    key_audio_file() + seq![COLON, SPACE] + g.audio_file
}

/// The `PreviewTime` line of a rendered `[General]` section.
pub open spec fn preview_time_line(g: GeneralM) -> Seq<u8> {
    key_preview_time() + seq![COLON, SPACE] + int_digits(g.preview_time)
}

pub open spec fn general_lines(g: GeneralM) -> Seq<Seq<u8>> {
    seq![audio_file_line(g), preview_time_line(g)] + g.rest
}

/// The `Version` line of a rendered `[Metadata]` section; the value follows
/// the bare colon with no space, as the format writes it.
pub open spec fn version_name_line(m: MetadataM) -> Seq<u8> {
    key_version() + seq![COLON] + m.diff_name
}

pub open spec fn metadata_lines(m: MetadataM) -> Seq<Seq<u8>> {
    seq![version_name_line(m)] + m.rest
}

/// A rendered timing-point line: time, beat length, verbatim remainder.
pub open spec fn tp_line(tp: TimingPointM) -> Seq<u8> {
    int_digits(tp.time) + seq![COMMA] + decimal_text(tp.beat_len) + seq![COMMA] + tp.rest
}

/// The variant-dependent middle of a rendered hit-object line.
pub open spec fn ho_params_text(p: HitObjectParamsM) -> Seq<u8> {
    match p {
        HitObjectParamsM::Spinner(e) => seq![COMMA] + int_digits(e) + seq![COMMA],
        _ => seq![COMMA],
    }
}

/// A rendered hit-object line.
pub open spec fn ho_line(h: HitObjectM) -> Seq<u8> {
    h.x + seq![COMMA] + h.y + seq![COMMA] + int_digits(h.time) + seq![COMMA] + dec_digits(
        h.kind as nat,
    ) + seq![COMMA] + h.sound + ho_params_text(h.params) + h.tail
}

pub open spec fn tp_lines(tps: Seq<TimingPointM>) -> Seq<Seq<u8>> {
    tps.map_values(|tp: TimingPointM| tp_line(tp))
}

pub open spec fn ho_lines(hos: Seq<HitObjectM>) -> Seq<Seq<u8>> {
    hos.map_values(|h: HitObjectM| ho_line(h))
}

/// The logical lines of a rendered beatmap: the format header, then every
/// section in fixed order, each under its bracketed header line.
pub open spec fn render_lines(b: BeatmapM) -> Seq<Seq<u8>> {
    seq![version_line()] + (seq![hdr_general()] + general_lines(b.general)) + (seq![hdr_editor()]
        + b.editor) + (seq![hdr_metadata()] + metadata_lines(b.metadata)) + (seq![
        hdr_difficulty(),
    ] + b.difficulty) + (seq![hdr_events()] + b.events) + (seq![hdr_timing_points()] + tp_lines(
        b.timing_points,
    )) + (match b.colors {
        Some(c) => seq![hdr_colours()] + c,
        None => Seq::empty(),
    }) + (seq![hdr_hit_objects()] + ho_lines(b.hit_objects))
}

/// The full byte form of a rendered beatmap: each block of lines closed by
/// newlines, with one blank line between consecutive blocks.
pub open spec fn doc_bytes(b: BeatmapM) -> Seq<u8> {
    emit_lines(seq![version_line()]) + seq![NL] + (emit_lines(
        seq![hdr_general()] + general_lines(b.general),
    ) + seq![NL]) + (emit_lines(seq![hdr_editor()] + b.editor) + seq![NL]) + (emit_lines(
        seq![hdr_metadata()] + metadata_lines(b.metadata),
    ) + seq![NL]) + (emit_lines(seq![hdr_difficulty()] + b.difficulty) + seq![NL]) + (emit_lines(
        seq![hdr_events()] + b.events,
    ) + seq![NL]) + (emit_lines(seq![hdr_timing_points()] + tp_lines(b.timing_points)) + seq![NL])
        + (match b.colors {
        Some(c) => emit_lines(seq![hdr_colours()] + c) + seq![NL],
        None => Seq::empty(),
    }) + emit_lines(seq![hdr_hit_objects()] + ho_lines(b.hit_objects))
}

pub(crate) fn hdr_general_bytes() -> (r: &'static [u8])
    ensures
        r@ == hdr_general(),
{
    let s: &'static str = "[General]";
    proof {
        reveal_strlit("[General]");
        assert(vstd::string::is_ascii(s)) by {
            assert(forall|i: int| 0 <= i < s@.len() ==> (s@[i] as u32) < 128);
        }
        vstd::string::is_ascii_spec_bytes(s);
        assert(s.spec_bytes() =~= hdr_general());
    }
    s.as_bytes()
}

pub(crate) fn hdr_editor_bytes() -> (r: &'static [u8])
    ensures
        r@ == hdr_editor(),
{
    let s: &'static str = "[Editor]";
    proof {
        reveal_strlit("[Editor]");
        assert(vstd::string::is_ascii(s)) by {
            assert(forall|i: int| 0 <= i < s@.len() ==> (s@[i] as u32) < 128);
        }
        vstd::string::is_ascii_spec_bytes(s);
        assert(s.spec_bytes() =~= hdr_editor());
    }
    s.as_bytes()
}

pub(crate) fn hdr_metadata_bytes() -> (r: &'static [u8])
    ensures
        r@ == hdr_metadata(),
{
    let s: &'static str = "[Metadata]";
    proof {
        reveal_strlit("[Metadata]");
        assert(vstd::string::is_ascii(s)) by {
            assert(forall|i: int| 0 <= i < s@.len() ==> (s@[i] as u32) < 128);
        }
        vstd::string::is_ascii_spec_bytes(s);
        assert(s.spec_bytes() =~= hdr_metadata());
    }
    s.as_bytes()
}

pub(crate) fn hdr_difficulty_bytes() -> (r: &'static [u8])
    ensures
        r@ == hdr_difficulty(),
{
    let s: &'static str = "[Difficulty]";
    proof {
        reveal_strlit("[Difficulty]");
        assert(vstd::string::is_ascii(s)) by {
            assert(forall|i: int| 0 <= i < s@.len() ==> (s@[i] as u32) < 128);
        }
        vstd::string::is_ascii_spec_bytes(s);
        assert(s.spec_bytes() =~= hdr_difficulty());
    }
    s.as_bytes()
}

pub(crate) fn hdr_events_bytes() -> (r: &'static [u8])
    ensures
        r@ == hdr_events(),
{
    let s: &'static str = "[Events]";
    proof {
        reveal_strlit("[Events]");
        assert(vstd::string::is_ascii(s)) by {
            assert(forall|i: int| 0 <= i < s@.len() ==> (s@[i] as u32) < 128);
        }
        vstd::string::is_ascii_spec_bytes(s);
        assert(s.spec_bytes() =~= hdr_events());
    }
    s.as_bytes()
}

pub(crate) fn hdr_timing_points_bytes() -> (r: &'static [u8])
    ensures
        r@ == hdr_timing_points(),
{
    let s: &'static str = "[TimingPoints]";
    proof {
        reveal_strlit("[TimingPoints]");
        assert(vstd::string::is_ascii(s)) by {
            assert(forall|i: int| 0 <= i < s@.len() ==> (s@[i] as u32) < 128);
        }
        vstd::string::is_ascii_spec_bytes(s);
        assert(s.spec_bytes() =~= hdr_timing_points());
    }
    s.as_bytes()
}

pub(crate) fn hdr_colours_bytes() -> (r: &'static [u8])
    ensures
        r@ == hdr_colours(),
{
    let s: &'static str = "[Colours]";
    proof {
        reveal_strlit("[Colours]");
        assert(vstd::string::is_ascii(s)) by {
            assert(forall|i: int| 0 <= i < s@.len() ==> (s@[i] as u32) < 128);
        }
        vstd::string::is_ascii_spec_bytes(s);
        assert(s.spec_bytes() =~= hdr_colours());
    }
    s.as_bytes()
}

pub(crate) fn hdr_hit_objects_bytes() -> (r: &'static [u8])
    ensures
        r@ == hdr_hit_objects(),
{
    let s: &'static str = "[HitObjects]";
    proof {
        reveal_strlit("[HitObjects]");
        assert(vstd::string::is_ascii(s)) by {
            assert(forall|i: int| 0 <= i < s@.len() ==> (s@[i] as u32) < 128);
        }
        vstd::string::is_ascii_spec_bytes(s);
        assert(s.spec_bytes() =~= hdr_hit_objects());
    }
    s.as_bytes()
}

pub(crate) fn version_line_bytes() -> (r: &'static [u8])
    ensures
        r@ == version_line(),
{
    let s: &'static str = "osu file format v14";
    proof {
        reveal_strlit("osu file format v14");
        assert(vstd::string::is_ascii(s)) by {
            assert(forall|i: int| 0 <= i < s@.len() ==> (s@[i] as u32) < 128);
        }
        vstd::string::is_ascii_spec_bytes(s);
        assert(s.spec_bytes() =~= version_line());
    }
    s.as_bytes()
}

pub(crate) fn magic_prefix_bytes() -> (r: &'static [u8])
    ensures
        r@ == magic_prefix(),
{
    let s: &'static str = "osu file format v";
    proof {
        reveal_strlit("osu file format v");
        assert(vstd::string::is_ascii(s)) by {
            assert(forall|i: int| 0 <= i < s@.len() ==> (s@[i] as u32) < 128);
        }
        vstd::string::is_ascii_spec_bytes(s);
        assert(s.spec_bytes() =~= magic_prefix());
    }
    s.as_bytes()
}

pub(crate) fn key_audio_file_bytes() -> (r: &'static [u8])
    ensures
        r@ == key_audio_file(),
{
    let s: &'static str = "AudioFilename";
    proof {
        reveal_strlit("AudioFilename");
        assert(vstd::string::is_ascii(s)) by {
            assert(forall|i: int| 0 <= i < s@.len() ==> (s@[i] as u32) < 128);
        }
        vstd::string::is_ascii_spec_bytes(s);
        assert(s.spec_bytes() =~= key_audio_file());
    }
    s.as_bytes()
}

pub(crate) fn key_preview_time_bytes() -> (r: &'static [u8])
    ensures
        r@ == key_preview_time(),
{
    let s: &'static str = "PreviewTime";
    proof {
        reveal_strlit("PreviewTime");
        assert(vstd::string::is_ascii(s)) by {
            assert(forall|i: int| 0 <= i < s@.len() ==> (s@[i] as u32) < 128);
        }
        vstd::string::is_ascii_spec_bytes(s);
        assert(s.spec_bytes() =~= key_preview_time());
    }
    s.as_bytes()
}

pub(crate) fn key_version_bytes() -> (r: &'static [u8])
    ensures
        r@ == key_version(),
{
    let s: &'static str = "Version";
    proof {
        reveal_strlit("Version");
        assert(vstd::string::is_ascii(s)) by {
            assert(forall|i: int| 0 <= i < s@.len() ==> (s@[i] as u32) < 128);
        }
        vstd::string::is_ascii_spec_bytes(s);
        assert(s.spec_bytes() =~= key_version());
    }
    s.as_bytes()
}

impl GeneralInfo {
    /// Renders the `[General]` block.
    pub fn into_string(self) -> (r: Vec<u8>)
        requires
            -100000000000000 <= self.preview_time <= 100000000000000,
        ensures
            r@ == emit_lines(seq![hdr_general()] + general_lines(self@)),
    {
        let ghost g = self@;
        let mut out: Vec<u8> = Vec::new();
        push_line(&mut out, hdr_general_bytes());
        let mut afl: Vec<u8> = Vec::new();
        crate::text::append_bytes(&mut afl, key_audio_file_bytes());
        afl.push(COLON);
        afl.push(SPACE);
        crate::text::append_bytes(&mut afl, self.audio_file.as_slice());
        proof {
            assert(afl@ =~= audio_file_line(g));
        }
        push_line(&mut out, afl.as_slice());
        let mut ptl: Vec<u8> = Vec::new();
        crate::text::append_bytes(&mut ptl, key_preview_time_bytes());
        ptl.push(COLON);
        ptl.push(SPACE);
        let ds = crate::numbers::digits_i64(self.preview_time);
        crate::text::append_bytes(&mut ptl, ds.as_slice());
        proof {
            assert(ptl@ =~= preview_time_line(g));
        }
        push_line(&mut out, ptl.as_slice());
        crate::text::push_lines(&mut out, &self.rest);
        proof {
            crate::text::lemma_emit_lines_append(seq![hdr_general()], seq![audio_file_line(g)]);
            crate::text::lemma_emit_lines_append(
                seq![hdr_general(), audio_file_line(g)],
                seq![preview_time_line(g)],
            );
            crate::text::lemma_emit_lines_append(
                seq![hdr_general(), audio_file_line(g), preview_time_line(g)],
                g.rest,
            );
            assert(seq![hdr_general()] + seq![audio_file_line(g)] =~= seq![
                hdr_general(),
                audio_file_line(g),
            ]);
            assert(seq![hdr_general(), audio_file_line(g)] + seq![preview_time_line(g)] =~= seq![
                hdr_general(),
                audio_file_line(g),
                preview_time_line(g),
            ]);
            assert(seq![hdr_general(), audio_file_line(g), preview_time_line(g)] + g.rest =~= seq![
                hdr_general(),
            ] + general_lines(g));
        }
        out
    }
}

impl EditorInfo {
    /// Renders the `[Editor]` block.
    pub fn into_string(self) -> (r: Vec<u8>)
        ensures
            r@ == emit_lines(seq![hdr_editor()] + self.0.deep_view()),
    {
        let mut out: Vec<u8> = Vec::new();
        push_line(&mut out, hdr_editor_bytes());
        crate::text::push_lines(&mut out, &self.0);
        proof {
            crate::text::lemma_emit_lines_append(seq![hdr_editor()], self.0.deep_view());
        }
        out
    }
}

impl Metadata {
    /// Renders the `[Metadata]` block.
    pub fn into_string(self) -> (r: Vec<u8>)
        ensures
            r@ == emit_lines(seq![hdr_metadata()] + metadata_lines(self@)),
    {
        let ghost m = self@;
        let mut out: Vec<u8> = Vec::new();
        push_line(&mut out, hdr_metadata_bytes());
        let mut vl: Vec<u8> = Vec::new();
        crate::text::append_bytes(&mut vl, key_version_bytes());
        vl.push(COLON);
        crate::text::append_bytes(&mut vl, self.diff_name.as_slice());
        proof {
            assert(vl@ =~= version_name_line(m));
        }
        push_line(&mut out, vl.as_slice());
        crate::text::push_lines(&mut out, &self.rest);
        proof {
            crate::text::lemma_emit_lines_append(seq![hdr_metadata()], seq![version_name_line(m)]);
            crate::text::lemma_emit_lines_append(
                seq![hdr_metadata(), version_name_line(m)],
                m.rest,
            );
            assert(seq![hdr_metadata()] + seq![version_name_line(m)] =~= seq![
                hdr_metadata(),
                version_name_line(m),
            ]);
            assert(seq![hdr_metadata(), version_name_line(m)] + m.rest =~= seq![hdr_metadata()]
                + metadata_lines(m));
        }
        out
    }
}

impl DifficultyInfo {
    /// Renders the `[Difficulty]` block.
    pub fn into_string(self) -> (r: Vec<u8>)
        ensures
            r@ == emit_lines(seq![hdr_difficulty()] + self.0.deep_view()),
    {
        let mut out: Vec<u8> = Vec::new();
        push_line(&mut out, hdr_difficulty_bytes());
        crate::text::push_lines(&mut out, &self.0);
        proof {
            crate::text::lemma_emit_lines_append(seq![hdr_difficulty()], self.0.deep_view());
        }
        out
    }
}

impl Events {
    /// Renders the `[Events]` block.
    pub fn into_string(self) -> (r: Vec<u8>)
        ensures
            r@ == emit_lines(seq![hdr_events()] + self.0.deep_view()),
    {
        let mut out: Vec<u8> = Vec::new();
        push_line(&mut out, hdr_events_bytes());
        crate::text::push_lines(&mut out, &self.0);
        proof {
            crate::text::lemma_emit_lines_append(seq![hdr_events()], self.0.deep_view());
        }
        out
    }
}

impl Colors {
    /// Renders the `[Colours]` block.
    pub fn into_string(self) -> (r: Vec<u8>)
        ensures
            r@ == emit_lines(seq![hdr_colours()] + self.0.deep_view()),
    {
        let mut out: Vec<u8> = Vec::new();
        push_line(&mut out, hdr_colours_bytes());
        crate::text::push_lines(&mut out, &self.0);
        proof {
            crate::text::lemma_emit_lines_append(seq![hdr_colours()], self.0.deep_view());
        }
        out
    }
}

impl TimingPoint {
    /// Renders one timing-point line, without its newline.
    pub fn into_string(self) -> (r: Vec<u8>)
        requires
            self@.wf_render(),
        ensures
            r@ == tp_line(self@),
    {
        let mut out = crate::numbers::digits_i64(self.time);
        out.push(COMMA);
        let bl = crate::numbers::render_decimal(&self.beat_len);
        crate::text::append_bytes(&mut out, bl.as_slice());
        out.push(COMMA);
        crate::text::append_bytes(&mut out, self.rest.as_slice());
        proof {
            assert(out@ =~= tp_line(self@));
        }
        out
    }
}

impl HitObjectParams {
    /// Renders the variant-dependent middle of a hit-object line.
    pub fn into_string(self) -> (r: Vec<u8>)
        requires
            match self {
                HitObjectParams::Spinner(e) => -100000000000000 <= e <= 100000000000000,
                _ => true,
            },
        ensures
            r@ == ho_params_text(self@),
    {
        let mut out: Vec<u8> = Vec::new();
        out.push(COMMA);
        match self {
            HitObjectParams::Spinner(e) => {
                let ds = crate::numbers::digits_i64(e);
                crate::text::append_bytes(&mut out, ds.as_slice());
                out.push(COMMA);
                proof {
                    assert(out@ =~= ho_params_text(self@));
                }
            },
            _ => {
                proof {
                    assert(out@ =~= ho_params_text(self@));
                }
            },
        }
        out
    }
}

impl HitObject {
    /// Renders one hit-object line, without its newline.
    pub fn into_string(self) -> (r: Vec<u8>)
        requires
            self@.wf_render(),
        ensures
            r@ == ho_line(self@),
    {
        let ghost h = self@;
        let mut out: Vec<u8> = Vec::new();
        crate::text::append_bytes(&mut out, self.x.as_slice());
        out.push(COMMA);
        crate::text::append_bytes(&mut out, self.y.as_slice());
        out.push(COMMA);
        let ds = crate::numbers::digits_i64(self.time);
        crate::text::append_bytes(&mut out, ds.as_slice());
        out.push(COMMA);
        let ks = crate::numbers::digits_u64(self.kind as u64);
        crate::text::append_bytes(&mut out, ks.as_slice());
        out.push(COMMA);
        crate::text::append_bytes(&mut out, self.sound.as_slice());
        let ps = self.params.into_string();
        crate::text::append_bytes(&mut out, ps.as_slice());
        crate::text::append_bytes(&mut out, self.tail.as_slice());
        proof {
            assert(out@ =~= ho_line(h));
        }
        out
    }
}

impl Beatmap {
    /// Renders the beatmap into its textual representation as bytes.
    #[verifier::rlimit(60)]
    pub fn into_string(self) -> (r: Vec<u8>)
        requires
            self@.wf_render(),
        ensures
            r@ == doc_bytes(self@),
    {
        let ghost b = self@;
        let mut out: Vec<u8> = Vec::new();
        push_line(&mut out, version_line_bytes());
        out.push(NL);
        let blk = self.general_info.into_string();
        crate::text::append_bytes(&mut out, blk.as_slice());
        out.push(NL);
        let blk = self.editor_info.into_string();
        crate::text::append_bytes(&mut out, blk.as_slice());
        out.push(NL);
        let blk = self.metadata.into_string();
        crate::text::append_bytes(&mut out, blk.as_slice());
        out.push(NL);
        let blk = self.difficulty.into_string();
        crate::text::append_bytes(&mut out, blk.as_slice());
        out.push(NL);
        let blk = self.events.into_string();
        crate::text::append_bytes(&mut out, blk.as_slice());
        out.push(NL);
        push_line(&mut out, hdr_timing_points_bytes());
        let n = self.timing_points.len();
        let mut i: usize = 0;
        let ghost base = out@;
        proof {
            assert forall|j: int|
                0 <= j < self.timing_points@.len() implies (#[trigger] self.timing_points@[j])@.wf_render() by {
                assert(b.timing_points[j] == self.timing_points@[j]@);
            }
        }
        while i < n
            invariant
                0 <= i <= n,
                n == self.timing_points@.len(),
                forall|j: int|
                    0 <= j < n ==> (#[trigger] self.timing_points@[j])@.wf_render(),
                out@ == base + emit_lines(tp_lines(b.timing_points).subrange(0, i as int)),
                b.timing_points == self.timing_points@.map_values(|tp: TimingPoint| tp@),
            decreases n - i,
        {
            let line = TimingPoint {
                time: self.timing_points[i].time,
                beat_len: self.timing_points[i].beat_len,
                rest: crate::text::subvec(
                    self.timing_points[i].rest.as_slice(),
                    0,
                    self.timing_points[i].rest.len(),
                ),
            };
            proof {
                assert(line@ =~= b.timing_points[i as int]);
            }
            let lv = line.into_string();
            push_line(&mut out, lv.as_slice());
            proof {
                let ls = tp_lines(b.timing_points);
                crate::text::lemma_emit_lines_append(
                    ls.subrange(0, i as int),
                    seq![ls[i as int]],
                );
                assert(ls.subrange(0, i as int) + seq![ls[i as int]] =~= ls.subrange(0, i + 1));
                assert(out@ =~= base + emit_lines(ls.subrange(0, i + 1)));
            }
            i = i + 1;
        }
        proof {
            assert(tp_lines(b.timing_points).subrange(0, tp_lines(b.timing_points).len() as int)
                =~= tp_lines(b.timing_points));
        }
        out.push(NL);
        match self.colors {
            Some(c) => {
                let blk = c.into_string();
                crate::text::append_bytes(&mut out, blk.as_slice());
                out.push(NL);
            },
            None => {},
        }
        push_line(&mut out, hdr_hit_objects_bytes());
        let n = self.hit_objects.len();
        let mut i: usize = 0;
        let ghost base2 = out@;
        proof {
            assert forall|j: int|
                0 <= j < self.hit_objects@.len() implies (#[trigger] self.hit_objects@[j])@.wf_render() by {
                assert(b.hit_objects[j] == self.hit_objects@[j]@);
            }
        }
        while i < n
            invariant
                0 <= i <= n,
                n == self.hit_objects@.len(),
                forall|j: int| 0 <= j < n ==> (#[trigger] self.hit_objects@[j])@.wf_render(),
                out@ == base2 + emit_lines(ho_lines(b.hit_objects).subrange(0, i as int)),
                b.hit_objects == self.hit_objects@.map_values(|h: HitObject| h@),
            decreases n - i,
        {
            let src = &self.hit_objects[i];
            let line = HitObject {
                time: src.time,
                params: match &src.params {
                    HitObjectParams::NoneUseful => HitObjectParams::NoneUseful,
                    HitObjectParams::Spinner(e) => HitObjectParams::Spinner(*e),
                    HitObjectParams::LongNote(e) => HitObjectParams::LongNote(*e),
                },
                x: crate::text::subvec(src.x.as_slice(), 0, src.x.len()),
                y: crate::text::subvec(src.y.as_slice(), 0, src.y.len()),
                kind: src.kind,
                sound: crate::text::subvec(src.sound.as_slice(), 0, src.sound.len()),
                tail: crate::text::subvec(src.tail.as_slice(), 0, src.tail.len()),
            };
            proof {
                assert(line@ =~= b.hit_objects[i as int]);
            }
            let lv = line.into_string();
            push_line(&mut out, lv.as_slice());
            proof {
                let ls = ho_lines(b.hit_objects);
                crate::text::lemma_emit_lines_append(
                    ls.subrange(0, i as int),
                    seq![ls[i as int]],
                );
                assert(ls.subrange(0, i as int) + seq![ls[i as int]] =~= ls.subrange(0, i + 1));
                assert(out@ =~= base2 + emit_lines(ls.subrange(0, i + 1)));
            }
            i = i + 1;
        }
        proof {
            assert(ho_lines(b.hit_objects).subrange(0, ho_lines(b.hit_objects).len() as int)
                =~= ho_lines(b.hit_objects));
            crate::text::lemma_emit_lines_append(
                seq![hdr_timing_points()],
                tp_lines(b.timing_points),
            );
            crate::text::lemma_emit_lines_append(seq![hdr_hit_objects()], ho_lines(b.hit_objects));
            assert(out@ =~= doc_bytes(b));
        }
        out
    }
}

impl Beatmap {
    /// Reads one beatmap from its textual representation.
    pub fn parse(input: &[u8]) -> (r: Result<Beatmap, ParseError>)
        ensures
            match r {
                Ok(b) => crate::beatmap::parser::parse_doc_spec(input@) == Ok::<
                    BeatmapM,
                    ParseError,
                >(b@) && b@.wf(),
                Err(e) => crate::beatmap::parser::parse_doc_spec(input@) == Err::<
                    BeatmapM,
                    ParseError,
                >(e),
            },
    {
        let mut p = Parser::new(input);
        p.parse()
    }
}

/// The label appended to the difficulty name of a rate variant.
pub open spec fn rate_suffix(r: Rate) -> Seq<u8> {
    ascii_bytes(" ("@) + decimal_text(r.as_decimal()) + ascii_bytes("x)"@)
}

pub open spec fn transform_general(g: GeneralM, r: Rate) -> GeneralM {
    GeneralM {
        audio_file: g.audio_file,
        preview_time: if g.preview_time >= 0 {
            spec_new_time(g.preview_time, r)
        } else {
            g.preview_time
        },
        rest: g.rest,
    }
}

pub open spec fn transform_metadata(m: MetadataM, r: Rate) -> MetadataM {
    MetadataM { diff_name: m.diff_name + rate_suffix(r), rest: m.rest }
}

/// A retimed timing point: the time is rescaled; the beat length is divided
/// by the rate only when it is non-negative (an uninherited point).
pub open spec fn transform_tp(tp: TimingPointM, r: Rate) -> TimingPointM {
    TimingPointM {
        time: spec_new_time(tp.time, r),
        beat_len: if !tp.beat_len.neg {
            spec_div_dec(tp.beat_len, r)
        } else {
            tp.beat_len
        },
        rest: tp.rest,
    }
}

/// A retimed hit object: the start time is always rescaled; spinner and
/// long-note end times are rescaled too, and a long note's new end time is
/// spliced back ahead of the preserved colon-delimited tail.
pub open spec fn transform_ho(h: HitObjectM, r: Rate) -> HitObjectM {
    let nt = spec_new_time(h.time, r);
    match h.params {
        HitObjectParamsM::NoneUseful => HitObjectM {
            x: h.x,
            y: h.y,
            time: nt,
            kind: h.kind,
            sound: h.sound,
            params: HitObjectParamsM::NoneUseful,
            tail: h.tail,
        },
        HitObjectParamsM::Spinner(e) => HitObjectM {
            x: h.x,
            y: h.y,
            time: nt,
            kind: h.kind,
            sound: h.sound,
            params: HitObjectParamsM::Spinner(spec_new_time(e, r)),
            tail: h.tail,
        },
        HitObjectParamsM::LongNote(e) => {
            let ne = spec_new_time(e, r);
            let c = crate::text::find_first(h.tail, COLON);
            HitObjectM {
                x: h.x,
                y: h.y,
                time: nt,
                kind: h.kind,
                sound: h.sound,
                params: HitObjectParamsM::LongNote(ne),
                tail: int_digits(ne) + seq![COLON] + h.tail.subrange(c + 1, h.tail.len() as int),
            }
        },
    }
}

/// The whole record retimed by a rate: every timing field rescaled, every
/// other byte kept, order and length of both sequences preserved.
pub open spec fn transform_model(b: BeatmapM, r: Rate) -> BeatmapM {
    BeatmapM {
        general: transform_general(b.general, r),
        editor: b.editor,
        metadata: transform_metadata(b.metadata, r),
        difficulty: b.difficulty,
        events: b.events,
        timing_points: b.timing_points.map_values(|tp: TimingPointM| transform_tp(tp, r)),
        colors: b.colors,
        hit_objects: b.hit_objects.map_values(|h: HitObjectM| transform_ho(h, r)),
    }
}

/// Rate monotonic scaling: in the transformed record, every timing-point
/// time and hit-object time — spinner and long-note end times included — is
/// the floor of the original divided by the rate, plus the fixed offset;
/// beat lengths of uninherited (non-negative) timing points are divided by
/// the rate, and inherited (negative) ones are left unscaled.
pub proof fn lemma_rate_monotonic_scaling(b: BeatmapM, r: Rate)
    ensures
        ({
            let t = transform_model(b, r);
            &&& forall|i: int|
                0 <= i < b.timing_points.len() ==> (#[trigger] t.timing_points[i]).time
                    == b.timing_points[i].time * crate::numbers::pow10(r.scale as nat) / (
                r.mant as int) + crate::numbers::OFFSET_MS
            &&& forall|i: int|
                0 <= i < b.timing_points.len() ==> (#[trigger] t.timing_points[i]).beat_len == (
                if !b.timing_points[i].beat_len.neg {
                    spec_div_dec(b.timing_points[i].beat_len, r)
                } else {
                    b.timing_points[i].beat_len
                })
            &&& forall|i: int|
                0 <= i < b.hit_objects.len() ==> (#[trigger] t.hit_objects[i]).time
                    == b.hit_objects[i].time * crate::numbers::pow10(r.scale as nat) / (
                r.mant as int) + crate::numbers::OFFSET_MS
            &&& forall|i: int|
                0 <= i < b.hit_objects.len() ==> match b.hit_objects[i].params {
                    HitObjectParamsM::NoneUseful => (#[trigger] t.hit_objects[i]).params
                        is NoneUseful,
                    HitObjectParamsM::Spinner(e) => t.hit_objects[i].params
                        == HitObjectParamsM::Spinner(spec_new_time(e, r)),
                    HitObjectParamsM::LongNote(e) => t.hit_objects[i].params
                        == HitObjectParamsM::LongNote(spec_new_time(e, r)),
                }
            &&& t.general.preview_time == (if b.general.preview_time >= 0 {
                spec_new_time(b.general.preview_time, r)
            } else {
                b.general.preview_time
            })
        }),
{
}

/// Order preservation: the transformed record has exactly as many timing
/// points and hit objects as the original, and the entry at every index
/// comes from the original entry at the same index, so relative order is
/// never changed.
pub proof fn lemma_order_preservation(b: BeatmapM, r: Rate)
    ensures
        ({
            let t = transform_model(b, r);
            &&& t.timing_points.len() == b.timing_points.len()
            &&& t.hit_objects.len() == b.hit_objects.len()
            &&& forall|i: int|
                0 <= i < b.timing_points.len() ==> #[trigger] t.timing_points[i] == transform_tp(
                    b.timing_points[i],
                    r,
                )
            &&& forall|i: int|
                0 <= i < b.hit_objects.len() ==> #[trigger] t.hit_objects[i] == transform_ho(
                    b.hit_objects[i],
                    r,
                )
        }),
{
}

fn rate_suffix_bytes(rate: &Rate) -> (r: Vec<u8>)
    requires
        rate.wf(),
    ensures
        r@ == rate_suffix(*rate),
{
    let open_s: &'static str = " (";
    let close_s: &'static str = "x)";
    proof {
        reveal_strlit(" (");
        reveal_strlit("x)");
        assert(vstd::string::is_ascii(open_s)) by {
            assert(forall|i: int| 0 <= i < open_s@.len() ==> (open_s@[i] as u32) < 128);
        }
        assert(vstd::string::is_ascii(close_s)) by {
            assert(forall|i: int| 0 <= i < close_s@.len() ==> (close_s@[i] as u32) < 128);
        }
        vstd::string::is_ascii_spec_bytes(open_s);
        vstd::string::is_ascii_spec_bytes(close_s);
    }
    let mut out: Vec<u8> = Vec::new();
    crate::text::append_bytes(&mut out, open_s.as_bytes());
    let d = Decimal { neg: false, mant: rate.mant, scale: rate.scale };
    let ds = crate::numbers::render_decimal(&d);
    crate::text::append_bytes(&mut out, ds.as_slice());
    crate::text::append_bytes(&mut out, close_s.as_bytes());
    proof {
        assert(open_s.spec_bytes() =~= ascii_bytes(" ("@));
        assert(close_s.spec_bytes() =~= ascii_bytes("x)"@));
        assert(out@ =~= rate_suffix(*rate));
    }
    out
}

impl Beatmap {
    /// Changes the rate of the beatmap from 1.0 to `rate`, rescaling every
    /// timing field in place. This does not change the audio nor the audio
    /// metadata. With a well-formed record every rewrite succeeds, so the
    /// returned flag is always true.
    pub fn change_rate(&mut self, rate: &Rate) -> (r: bool)
        requires
            old(self)@.wf(),
            rate.wf(),
        ensures
            r == true,
            final(self)@ == transform_model(old(self)@, *rate),
            final(self)@.wf_render(),
    {
        let ghost b = old(self)@;
        let p = self.general_info.preview_time;
        if p >= 0 {
            self.general_info.preview_time = crate::numbers::scale_time(p, rate);
        }
        let suffix = rate_suffix_bytes(rate);
        crate::text::append_bytes(&mut self.metadata.diff_name, suffix.as_slice());
        proof {
            assert(self.general_info@ =~= transform_general(b.general, *rate));
            assert(self.metadata@ =~= transform_metadata(b.metadata, *rate));
        }
        let n = self.timing_points.len();
        let mut i: usize = 0;
        proof {
            assert forall|j: int|
                0 <= j < self.timing_points@.len() implies (
                #[trigger] self.timing_points@[j])@.wf() by {
                assert(b.timing_points[j] == self.timing_points@[j]@);
            }
        }
        while i < n
            invariant
                0 <= i <= n,
                n == self.timing_points@.len(),
                n == b.timing_points.len(),
                rate.wf(),
                self@.general == transform_general(b.general, *rate),
                self@.metadata == transform_metadata(b.metadata, *rate),
                self@.editor == b.editor,
                self@.difficulty == b.difficulty,
                self@.events == b.events,
                self@.colors == b.colors,
                self@.hit_objects == b.hit_objects,
                forall|j: int|
                    i <= j < n ==> (#[trigger] self.timing_points@[j])@ == b.timing_points[j]
                        && b.timing_points[j].wf(),
                forall|j: int|
                    0 <= j < i ==> (#[trigger] self.timing_points@[j])@ == transform_tp(
                        b.timing_points[j],
                        *rate,
                    ) && (#[trigger] self.timing_points@[j])@.wf_render(),
            decreases n - i,
        {
            let tp = &mut self.timing_points[i];
            let nt = crate::numbers::scale_time(tp.time, rate);
            tp.time = nt;
            if !tp.beat_len.neg {
                let bl = tp.beat_len;
                tp.beat_len = crate::numbers::div_decimal(&bl, rate);
            }
            proof {
                assert(self.timing_points@[i as int]@ =~= transform_tp(
                    b.timing_points[i as int],
                    *rate,
                ));
                assert(self.timing_points@[i as int]@.wf_render());
            }
            i = i + 1;
        }
        let ghost tps_done = self.timing_points@;
        proof {
            assert(forall|j: int|
                0 <= j < tps_done.len() ==> (#[trigger] tps_done[j])@.wf_render());
        }
        let n = self.hit_objects.len();
        let mut i: usize = 0;
        proof {
            assert forall|j: int|
                0 <= j < self.hit_objects@.len() implies (#[trigger] self.hit_objects@[j])@.wf() by {
                assert(b.hit_objects[j] == self.hit_objects@[j]@);
            }
        }
        while i < n
            invariant
                0 <= i <= n,
                n == self.hit_objects@.len(),
                n == b.hit_objects.len(),
                rate.wf(),
                self@.general == transform_general(b.general, *rate),
                self@.metadata == transform_metadata(b.metadata, *rate),
                self@.editor == b.editor,
                self@.difficulty == b.difficulty,
                self@.events == b.events,
                self@.colors == b.colors,
                self@.timing_points == b.timing_points.map_values(
                    |tp: TimingPointM| transform_tp(tp, *rate),
                ),
                self.timing_points@ == tps_done,
                forall|j: int|
                    i <= j < n ==> (#[trigger] self.hit_objects@[j])@ == b.hit_objects[j]
                        && b.hit_objects[j].wf(),
                forall|j: int|
                    0 <= j < i ==> (#[trigger] self.hit_objects@[j])@ == transform_ho(
                        b.hit_objects[j],
                        *rate,
                    ) && (#[trigger] self.hit_objects@[j])@.wf_render(),
            decreases n - i,
        {
            let ghost oh = b.hit_objects[i as int];
            let h = &mut self.hit_objects[i];
            proof {
                assert(h@ == oh && oh.wf());
            }
            let nt = crate::numbers::scale_time(h.time, rate);
            h.time = nt;
            let params = match &h.params {
                HitObjectParams::NoneUseful => HitObjectParams::NoneUseful,
                HitObjectParams::Spinner(e) => HitObjectParams::Spinner(*e),
                HitObjectParams::LongNote(e) => HitObjectParams::LongNote(*e),
            };
            match params {
                HitObjectParams::NoneUseful => {},
                HitObjectParams::Spinner(e) => {
                    h.params = HitObjectParams::Spinner(crate::numbers::scale_time(e, rate));
                },
                HitObjectParams::LongNote(e) => {
                    let ne = crate::numbers::scale_time(e, rate);
                    proof {
                        assert(long_note_tail_ok(oh.tail, e as int));
                        assert(h.tail@ == oh.tail);
                    }
                    let c = crate::text::find_byte(h.tail.as_slice(), 0, COLON);
                    proof {
                        assert(h.tail@.subrange(0, h.tail@.len() as int) =~= h.tail@);
                        assert(c == crate::text::find_first(oh.tail, COLON));
                        assert(c < h.tail@.len());
                    }
                    let tail_len = h.tail.len();
                    let rest_part = crate::text::subvec(h.tail.as_slice(), c + 1, tail_len);
                    let mut ntail = crate::numbers::digits_i64(ne);
                    ntail.push(COLON);
                    crate::text::append_bytes(&mut ntail, rest_part.as_slice());
                    h.tail = ntail;
                    h.params = HitObjectParams::LongNote(ne);
                },
            }
            proof {
                assert(self.hit_objects@[i as int]@ =~= transform_ho(
                    b.hit_objects[i as int],
                    *rate,
                ));
                assert(self.hit_objects@[i as int]@.wf_render());
            }
            i = i + 1;
        }
        proof {
            assert(self.timing_points@.map_values(|tp: TimingPoint| tp@) =~= b.timing_points
                .map_values(|tp: TimingPointM| transform_tp(tp, *rate)));
            assert(self.hit_objects@.map_values(|h: HitObject| h@) =~= b.hit_objects.map_values(
                |h: HitObjectM| transform_ho(h, *rate),
            ));
            assert(self@ =~= transform_model(b, *rate));
            assert forall|j: int|
                0 <= j < self@.timing_points.len() implies (#[trigger] self@.timing_points[j]).wf_render() by {
                assert(self@.timing_points[j] == self.timing_points@[j]@);
                assert(self.timing_points@[j] == tps_done[j]);
                assert(tps_done[j]@.wf_render());
            }
            assert forall|j: int|
                0 <= j < self@.hit_objects.len() implies (#[trigger] self@.hit_objects[j]).wf_render() by {
                assert(self@.hit_objects[j] == self.hit_objects@[j]@);
            }
            assert(self@.wf_render());
        }
        true
    }
}

} // verus!
