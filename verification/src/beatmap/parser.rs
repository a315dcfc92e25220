//! The beatmap text parser: a line-oriented reader that checks the format
//! header, walks the fixed section order, and builds the typed record, with
//! the whole grammar stated as specification functions.

use vstd::prelude::*;
use vstd::string::StringSliceAdditionalSpecFns;

use crate::beatmap::{
    find_kv_sep, general_rest_line_ok, hdr_colours, hdr_difficulty, hdr_editor, hdr_events,
    hdr_general, hdr_hit_objects, hdr_metadata, hdr_timing_points, is_header, key_audio_file,
    key_preview_time, key_version, kv_key, kv_value, magic_prefix, metadata_rest_line_ok,
    BeatmapM, GeneralM, HitObjectM, HitObjectParamsM, MetadataM, TimingPointM,
};
use crate::numbers::{spec_parse_decimal, spec_parse_int, spec_parse_time, TIME_MAX};
use crate::text::{
    ascii_bytes, find_first, join_commas, kept_ok, lines_of, split_commas, strip_bom, COLON, SPACE,
    COMMA,
};

verus! {

/// Why a beatmap text was rejected.
#[derive(Clone, Copy, PartialEq, Eq, Structural, Debug)]
pub enum ParseError {
    UnsupportedVersion,
    InvalidBeatmap,
    IoError,
}

/// Wraps a structural check into the error the format reader reports.
pub fn verify_ff(cond: bool) -> (r: Result<(), ParseError>)
    ensures
        cond ==> r == Result::<(), ParseError>::Ok(()),
        !cond ==> r == Result::<(), ParseError>::Err(ParseError::InvalidBeatmap),
{
    crate::util::verify(cond, ParseError::InvalidBeatmap)
}

/// Checks if `line` is a section header (i.e. `[Metadata]`) or was the result
/// of reaching the end of the input.
pub fn is_section_header_or_eof(line: &[u8]) -> (r: bool)
    ensures
        r == (line@.len() == 0 || is_header(line@)),
{
    if line.len() == 0 {
        true
    } else {
        *vstd::slice::slice_index_get(line, 0) == 91 && *vstd::slice::slice_index_get(
            line,
            line.len() - 1,
        ) == 93
    }
}

/// The `14` accepted as a format version.
pub open spec fn version_fourteen() -> Seq<u8> {
    ascii_bytes("14"@)
}

/// The verbatim lines of a section read from index `i` up to the next header
/// or the end, and the index that stopped the scan.
pub open spec fn read_section_rec(ls: Seq<Seq<u8>>, i: int) -> (Seq<Seq<u8>>, int)
    decreases ls.len() - i,
{
    if i < 0 || i >= ls.len() || is_header(ls[i]) {
        (Seq::empty(), i)
    } else {
        let r = read_section_rec(ls, i + 1);
        (seq![ls[i]] + r.0, r.1)
    }
}

pub proof fn lemma_read_section_rec(ls: Seq<Seq<u8>>, i: int)
    requires
        0 <= i <= ls.len(),
    ensures
        ({
            let (ss, j) = read_section_rec(ls, i);
            &&& i <= j <= ls.len()
            &&& ss =~= ls.subrange(i, j)
            &&& j < ls.len() ==> is_header(ls[j])
            &&& forall|k: int| i <= k < j ==> !is_header(#[trigger] ls[k])
        }),
    decreases ls.len() - i,
{
    if i >= ls.len() || is_header(ls[i]) {
        let (ss, j) = read_section_rec(ls, i);
        assert(ss =~= ls.subrange(i, j));
    } else {
        lemma_read_section_rec(ls, i + 1);
        let (ss, j) = read_section_rec(ls, i);
        let (st, _) = read_section_rec(ls, i + 1);
        assert(ss =~= seq![ls[i]] + st);
        assert(ss =~= ls.subrange(i, j));
    }
}

/// The `[General]` scan from index `i` with the fields gathered so far: the
/// last `AudioFilename` and `PreviewTime` values win, every other line joins
/// the remainder, and a missing audio file is a format error at section end.
pub open spec fn parse_general_rec(
    ls: Seq<Seq<u8>>,
    i: int,
    af: Seq<u8>,
    pt: int,
    rest: Seq<Seq<u8>>,
) -> Result<(GeneralM, int), ParseError>
    decreases ls.len() - i,
{
    if i < 0 || i >= ls.len() || is_header(ls[i]) {
        if af.len() == 0 {
            Err(ParseError::InvalidBeatmap)
        } else {
            Ok((GeneralM { audio_file: af, preview_time: pt, rest }, i))
        }
    } else {
        let l = ls[i];
        let k = find_kv_sep(l);
        if k >= l.len() {
            Err(ParseError::InvalidBeatmap)
        } else if kv_key(l) == key_audio_file() {
            parse_general_rec(ls, i + 1, kv_value(l), pt, rest)
        } else if kv_key(l) == key_preview_time() {
            match spec_parse_int(kv_value(l), TIME_MAX) {
                Some(v) => parse_general_rec(ls, i + 1, af, v, rest),
                None => Err(ParseError::InvalidBeatmap),
            }
        } else {
            parse_general_rec(ls, i + 1, af, pt, rest.push(l))
        }
    }
}

/// The `[Metadata]` scan from index `i`: the last `Version` value wins, and a
/// missing or empty one is a format error at section end.
pub open spec fn parse_metadata_rec(
    ls: Seq<Seq<u8>>,
    i: int,
    dn: Seq<u8>,
    rest: Seq<Seq<u8>>,
) -> Result<(MetadataM, int), ParseError>
    decreases ls.len() - i,
{
    if i < 0 || i >= ls.len() || is_header(ls[i]) {
        if dn.len() == 0 {
            Err(ParseError::InvalidBeatmap)
        } else {
            Ok((MetadataM { diff_name: dn, rest }, i))
        }
    } else {
        let l = ls[i];
        let k = find_first(l, COLON);
        if k >= l.len() {
            Err(ParseError::InvalidBeatmap)
        } else if l.subrange(0, k) == key_version() {
            parse_metadata_rec(ls, i + 1, l.subrange(k + 1, l.len() as int), rest)
        } else {
            parse_metadata_rec(ls, i + 1, dn, rest.push(l))
        }
    }
}

/// One timing-point line: exactly three comma fields, the third absorbing
/// every remaining comma; the first two are the time and the beat length.
pub open spec fn parse_tp_line(l: Seq<u8>) -> Option<TimingPointM> {
    let c1 = find_first(l, COMMA);
    if c1 >= l.len() {
        None
    } else {
        let rest1 = l.subrange(c1 + 1, l.len() as int);
        let c2 = find_first(rest1, COMMA);
        if c2 >= rest1.len() {
            None
        } else {
            match spec_parse_time(l.subrange(0, c1), TIME_MAX) {
                Some(t) => match spec_parse_decimal(rest1.subrange(0, c2)) {
                    Some(bl) => Some(
                        TimingPointM {
                            time: t,
                            beat_len: bl,
                            rest: rest1.subrange(c2 + 1, rest1.len() as int),
                        },
                    ),
                    None => None,
                },
                None => None,
            }
        }
    }
}

/// The `[TimingPoints]` scan from index `i`.
pub open spec fn parse_tps_rec(ls: Seq<Seq<u8>>, i: int, acc: Seq<TimingPointM>) -> Result<
    (Seq<TimingPointM>, int),
    ParseError,
>
    decreases ls.len() - i,
{
    if i < 0 || i >= ls.len() || is_header(ls[i]) {
        Ok((acc, i))
    } else {
        match parse_tp_line(ls[i]) {
            Some(tp) => parse_tps_rec(ls, i + 1, acc.push(tp)),
            None => Err(ParseError::InvalidBeatmap),
        }
    }
}

/// One hit-object line: position, time, type mask and hit sound as the first
/// five comma fields; the variant chosen by bit tests on the mask, a spinner
/// consuming one further field as its end time, a long note reading its end
/// time out of the first colon field of the unconsumed tail.
pub open spec fn parse_ho_line(l: Seq<u8>) -> Option<HitObjectM> {
    let toks = split_commas(l);
    if toks.len() < 5 {
        None
    } else {
        match spec_parse_int(toks[2], TIME_MAX) {
            None => None,
            Some(t) => {
                match crate::numbers::spec_parse_digits(toks[3], 2147483647) {
                    None => None,
                    Some(kind) => {
                        let kind = kind as u32;
                        if kind & 1 == 1 || kind & 2 == 2 {
                            Some(
                                HitObjectM {
                                    x: toks[0],
                                    y: toks[1],
                                    time: t,
                                    kind,
                                    sound: toks[4],
                                    params: HitObjectParamsM::NoneUseful,
                                    tail: join_commas(toks.subrange(5, toks.len() as int)),
                                },
                            )
                        } else if kind & 8 == 8 {
                            if toks.len() < 6 {
                                None
                            } else {
                                match spec_parse_int(toks[5], TIME_MAX) {
                                    None => None,
                                    Some(e) => Some(
                                        HitObjectM {
                                            x: toks[0],
                                            y: toks[1],
                                            time: t,
                                            kind,
                                            sound: toks[4],
                                            params: HitObjectParamsM::Spinner(e),
                                            tail: join_commas(
                                                toks.subrange(6, toks.len() as int),
                                            ),
                                        },
                                    ),
                                }
                            }
                        } else if kind & 128 == 128 {
                            if toks.len() < 6 {
                                None
                            } else {
                                let t6 = toks[5];
                                let cc = find_first(t6, COLON);
                                if cc >= t6.len() {
                                    None
                                } else {
                                    match spec_parse_int(t6.subrange(0, cc), TIME_MAX) {
                                        None => None,
                                        Some(e) => Some(
                                            HitObjectM {
                                                x: toks[0],
                                                y: toks[1],
                                                time: t,
                                                kind,
                                                sound: toks[4],
                                                params: HitObjectParamsM::LongNote(e),
                                                tail: join_commas(
                                                    toks.subrange(5, toks.len() as int),
                                                ),
                                            },
                                        ),
                                    }
                                }
                            }
                        } else {
                            None
                        }
                    },
                }
            },
        }
    }
}

/// The `[HitObjects]` scan from index `i`.
pub open spec fn parse_hos_rec(ls: Seq<Seq<u8>>, i: int, acc: Seq<HitObjectM>) -> Result<
    (Seq<HitObjectM>, int),
    ParseError,
>
    decreases ls.len() - i,
{
    if i < 0 || i >= ls.len() || is_header(ls[i]) {
        Ok((acc, i))
    } else {
        match parse_ho_line(ls[i]) {
            Some(h) => parse_hos_rec(ls, i + 1, acc.push(h)),
            None => Err(ParseError::InvalidBeatmap),
        }
    }
}

/// The whole grammar over the kept logical lines: the version header, then
/// the sections in fixed order, `[Colours]` optional, and nothing after the
/// hit objects.
pub open spec fn parse_lines_spec(ls: Seq<Seq<u8>>) -> Result<BeatmapM, ParseError> {
    if ls.len() == 0 {
        Err(ParseError::InvalidBeatmap)
    } else {
        let l0 = ls[0];
        if !(l0.len() >= magic_prefix().len() && l0.subrange(0, magic_prefix().len() as int)
            == magic_prefix()) {
            Err(ParseError::InvalidBeatmap)
        } else if l0.subrange(magic_prefix().len() as int, l0.len() as int)
            != version_fourteen() {
            Err(ParseError::UnsupportedVersion)
        } else if !(ls.len() > 1 && ls[1] == hdr_general()) {
            Err(ParseError::InvalidBeatmap)
        } else {
            match parse_general_rec(ls, 2, Seq::empty(), -1, Seq::empty()) {
                Err(e) => Err(e),
                Ok((general, i)) => {
                    if !(i < ls.len() && ls[i] == hdr_editor()) {
                        Err(ParseError::InvalidBeatmap)
                    } else {
                        let (editor, j) = read_section_rec(ls, i + 1);
                        if !(j < ls.len() && ls[j] == hdr_metadata()) {
                            Err(ParseError::InvalidBeatmap)
                        } else {
                            match parse_metadata_rec(ls, j + 1, Seq::empty(), Seq::empty()) {
                                Err(e) => Err(e),
                                Ok((metadata, k)) => {
                                    if !(k < ls.len() && ls[k] == hdr_difficulty()) {
                                        Err(ParseError::InvalidBeatmap)
                                    } else {
                                        let (difficulty, p) = read_section_rec(ls, k + 1);
                                        if !(p < ls.len() && ls[p] == hdr_events()) {
                                            Err(ParseError::InvalidBeatmap)
                                        } else {
                                            let (events, q) = read_section_rec(ls, p + 1);
                                            if !(q < ls.len() && ls[q] == hdr_timing_points()) {
                                                Err(ParseError::InvalidBeatmap)
                                            } else {
                                                match parse_tps_rec(ls, q + 1, Seq::empty()) {
                                                    Err(e) => Err(e),
                                                    Ok((timing_points, u)) => parse_tail_spec(
                                                        ls,
                                                        u,
                                                        general,
                                                        editor,
                                                        metadata,
                                                        difficulty,
                                                        events,
                                                        timing_points,
                                                    ),
                                                }
                                            }
                                        }
                                    }
                                }
                            }
                        }
                    }
                },
            }
        }
    }
}

/// The optional `[Colours]` section and the closing `[HitObjects]` section.
pub open spec fn parse_tail_spec(
    ls: Seq<Seq<u8>>,
    u: int,
    general: GeneralM,
    editor: Seq<Seq<u8>>,
    metadata: MetadataM,
    difficulty: Seq<Seq<u8>>,
    events: Seq<Seq<u8>>,
    timing_points: Seq<TimingPointM>,
) -> Result<BeatmapM, ParseError> {
    let cw: (Option<Seq<Seq<u8>>>, int) = if u < ls.len() && ls[u] == hdr_colours() {
        let (c, w) = read_section_rec(ls, u + 1);
        (Some(c), w)
    } else {
        (None, u)
    };
    let colors = cw.0;
    let w = cw.1;
    if !(w < ls.len() && ls[w] == hdr_hit_objects()) {
        Err(ParseError::InvalidBeatmap)
    } else {
        match parse_hos_rec(ls, w + 1, Seq::empty()) {
            Err(e) => Err(e),
            Ok((hit_objects, z)) => {
                if z != ls.len() {
                    Err(ParseError::InvalidBeatmap)
                } else {
                    Ok(
                        BeatmapM {
                            general,
                            editor,
                            metadata,
                            difficulty,
                            events,
                            timing_points,
                            colors,
                            hit_objects,
                        },
                    )
                }
            },
        }
    }
}

/// The whole grammar over raw bytes: strip a byte-order mark, split into
/// kept logical lines, parse those.
pub open spec fn parse_doc_spec(input: Seq<u8>) -> Result<BeatmapM, ParseError> {
    parse_lines_spec(lines_of(strip_bom(input)))
}

/// Reads one beatmap from a byte stream.
pub struct Parser {
    lines: Vec<Vec<u8>>,
    pos: usize,
    src: Ghost<Seq<u8>>,
}

impl Parser {
    /// All stored lines are as the line reader keeps them.
    pub closed spec fn lines_ok(self) -> bool {
        forall|i: int|
            0 <= i < self.lines.deep_view().len() ==> kept_ok(#[trigger] self.lines.deep_view()[i])
    }

    /// A fresh parser: the kept lines of the source, none consumed yet.
    pub closed spec fn wf(self) -> bool {
        &&& self.lines.deep_view() == lines_of(strip_bom(self.src@))
        &&& self.lines_ok()
        &&& self.pos == 0
    }

    pub closed spec fn spec_src(self) -> Seq<u8> {
        self.src@
    }

    /// Prepares to read a beatmap from `input`.
    pub fn new(input: &[u8]) -> (p: Parser)
        ensures
            p.wf(),
            p.spec_src() == input@,
    {
        let data = crate::text::trim_utf8_bom(input);
        let lines = crate::text::split_lines(data.as_slice());
        Parser { lines, pos: 0, src: Ghost(input@) }
    }

    /// Reads the next kept line, or an empty line at the end of the input.
    fn read_line(&mut self) -> (l: Vec<u8>)
        requires
            old(self).pos <= old(self).lines.deep_view().len(),
        ensures
            final(self).lines == old(self).lines,
            final(self).src == old(self).src,
            final(self).pos <= final(self).lines.deep_view().len(),
            ({
                let ls = old(self).lines.deep_view();
                let p = old(self).pos as int;
                if p < ls.len() {
                    l@ == ls[p] && final(self).pos == p + 1
                } else {
                    l@.len() == 0 && final(self).pos == p
                }
            }),
    {
        if self.pos < self.lines.len() {
            let line = &self.lines[self.pos];
            let l = crate::text::subvec(line.as_slice(), 0, line.len());
            self.pos = self.pos + 1;
            proof {
                assert(l@ =~= self.lines.deep_view()[self.pos - 1]);
            }
            l
        } else {
            Vec::new()
        }
    }
}

pub(crate) fn version_fourteen_bytes() -> (r: &'static [u8])
    ensures
        r@ == version_fourteen(),
{
    let s: &'static str = "14";
    proof {
        reveal_strlit("14");
        assert(vstd::string::is_ascii(s)) by {
            assert(forall|i: int| 0 <= i < s@.len() ==> (s@[i] as u32) < 128);
        }
        vstd::string::is_ascii_spec_bytes(s);
        assert(s.spec_bytes() =~= version_fourteen());
    }
    s.as_bytes()
}

/// The headers and the format magic are non-empty, so an empty line (the end
/// of the input) never matches one.
pub proof fn lemma_literal_lens()
    ensures
        magic_prefix().len() == 17,
        hdr_general().len() == 9,
        hdr_editor().len() == 8,
        hdr_metadata().len() == 10,
        hdr_difficulty().len() == 12,
        hdr_events().len() == 8,
        hdr_timing_points().len() == 14,
        hdr_colours().len() == 9,
        hdr_hit_objects().len() == 12,
{
    reveal_strlit("osu file format v");
    reveal_strlit("[General]");
    reveal_strlit("[Editor]");
    reveal_strlit("[Metadata]");
    reveal_strlit("[Difficulty]");
    reveal_strlit("[Events]");
    reveal_strlit("[TimingPoints]");
    reveal_strlit("[Colours]");
    reveal_strlit("[HitObjects]");
}

/// How a section parser hands back its terminator: the header line it
/// stopped on (then consumed), or an empty line at the end of the input.
pub open spec fn term_ok(ls: Seq<Seq<u8>>, i: int, hdr: Seq<u8>, pos: int) -> bool {
    if i < ls.len() {
        hdr == ls[i] && pos == i + 1
    } else {
        hdr.len() == 0 && pos == i
    }
}

/// Finds the first `": "` separator in `l`, or `l.len()` if none.
fn find_kv(l: &[u8]) -> (r: usize)
    ensures
        r == find_kv_sep(l@),
        r <= l@.len(),
        r < l@.len() ==> r + 1 < l@.len(),
{
    proof {
        crate::beatmap::lemma_find_kv_sep(l@);
    }
    if l.len() < 2 {
        return l.len();
    }
    let mut i: usize = 0;
    while i < l.len() - 1
        invariant
            l@.len() >= 2,
            0 <= i <= l@.len(),
            forall|j: int|
                0 <= j < i && j + 1 < l@.len() ==> !(#[trigger] l@[j] == COLON && l@[j + 1]
                    == SPACE),
        decreases l@.len() - i,
    {
        if *vstd::slice::slice_index_get(l, i) == COLON && *vstd::slice::slice_index_get(
            l,
            i + 1,
        ) == SPACE {
            proof {
                crate::beatmap::lemma_find_kv_sep_is(l@, i as int);
            }
            return i;
        }
        i = i + 1;
    }
    proof {
        crate::beatmap::lemma_find_kv_sep_is(l@, l@.len() as int);
    }
    l.len()
}

impl Parser {
    /// Reads an entire section verbatim, without any special parsing,
    /// returning its lines and the header line that ended it.
    fn read_section(&mut self) -> (r: (Vec<Vec<u8>>, Vec<u8>))
        requires
            old(self).lines_ok(),
            old(self).pos <= old(self).lines.deep_view().len(),
        ensures
            final(self).lines == old(self).lines,
            final(self).src == old(self).src,
            final(self).pos <= final(self).lines.deep_view().len(),
            ({
                let ls = old(self).lines.deep_view();
                let p0 = old(self).pos as int;
                let (ss, j) = read_section_rec(ls, p0);
                r.0.deep_view() == ss && term_ok(ls, j, r.1@, final(self).pos as int)
            }),
    {
        let ghost ls = self.lines.deep_view();
        let ghost p0 = self.pos as int;
        let ghost lines0 = self.lines;
        let ghost src0 = self.src;
        proof {
            assert(forall|q: int| 0 <= q < ls.len() ==> kept_ok(#[trigger] ls[q]));
        }
        let mut acc: Vec<Vec<u8>> = Vec::new();
        proof {
            assert(acc.deep_view() =~= Seq::<Seq<u8>>::empty());
        }
        #[verifier::loop_isolation(false)]
        loop
            invariant
                self.lines == lines0,
                self.src == src0,
                lines0 == old(self).lines,
                src0 == old(self).src,
                forall|q: int| 0 <= q < ls.len() ==> kept_ok(#[trigger] ls[q]),
                ls == self.lines.deep_view(),
                ls.len() == self.lines@.len(),
                0 <= p0 <= self.pos as int <= ls.len(),
                read_section_rec(ls, p0).0 == acc.deep_view() + read_section_rec(
                    ls,
                    self.pos as int,
                ).0,
                read_section_rec(ls, p0).1 == read_section_rec(ls, self.pos as int).1,
            decreases ls.len() - self.pos,
        {
            if self.pos == self.lines.len() {
                proof {
                    assert(read_section_rec(ls, self.pos as int).0 =~= Seq::<Seq<u8>>::empty());
                    assert(acc.deep_view() + Seq::<Seq<u8>>::empty() =~= acc.deep_view());
                    assert(ls == old(self).lines.deep_view());
                    assert(p0 == old(self).pos as int);
                    assert(read_section_rec(ls, p0).0 == acc.deep_view());
                    assert(read_section_rec(ls, p0).1 == ls.len() as int);
                    assert(self.pos as int == ls.len() as int);
                    assert(term_ok(ls, ls.len() as int, Seq::<u8>::empty(), self.pos as int));
                }
                return (acc, Vec::new());
            }
            let ghost cur = self.pos as int;
            let line = self.read_line();
            if is_section_header_or_eof(line.as_slice()) {
                proof {
                    assert(kept_ok(ls[cur]));
                    assert(is_header(ls[cur]));
                    assert(read_section_rec(ls, cur).0 =~= Seq::<Seq<u8>>::empty());
                    assert(acc.deep_view() + Seq::<Seq<u8>>::empty() =~= acc.deep_view());
                }
                return (acc, line);
            }
            let ghost old_deep = acc.deep_view();
            let ghost old_vs = acc@;
            acc.push(line);
            proof {
                let d = acc.deep_view();
                assert forall|j: int| 0 <= j < old_deep.len() implies d[j] == old_deep[j] by {
                    assert(acc@[j] == old_vs[j]);
                }
                assert(d[old_deep.len() as int] == ls[cur]);
                assert(d =~= old_deep + seq![ls[cur]]);
                assert(read_section_rec(ls, cur).0 == seq![ls[cur]] + read_section_rec(
                    ls,
                    cur + 1,
                ).0);
                assert(old_deep + (seq![ls[cur]] + read_section_rec(ls, cur + 1).0) =~= (old_deep
                    + seq![ls[cur]]) + read_section_rec(ls, cur + 1).0);
            }
        }
    }

    /// Parses the `[General]` section into its typed fields and remainder.
    fn parse_general_info(&mut self) -> (r: Result<
        (crate::beatmap::GeneralInfo, Vec<u8>),
        ParseError,
    >)
        requires
            old(self).lines_ok(),
            old(self).pos <= old(self).lines.deep_view().len(),
        ensures
            final(self).lines == old(self).lines,
            final(self).src == old(self).src,
            final(self).pos <= final(self).lines.deep_view().len(),
            ({
                let ls = old(self).lines.deep_view();
                let p0 = old(self).pos as int;
                let spec = parse_general_rec(ls, p0, Seq::empty(), -1, Seq::empty());
                match r {
                    Ok((g, hdr)) => spec is Ok && g@ == spec.unwrap().0 && g@.wf() && term_ok(
                        ls,
                        spec.unwrap().1,
                        hdr@,
                        final(self).pos as int,
                    ),
                    Err(e) => spec == Err::<(GeneralM, int), ParseError>(e),
                }
            }),
    {
        let ghost ls = self.lines.deep_view();
        let ghost p0 = self.pos as int;
        let ghost lines0 = self.lines;
        let ghost src0 = self.src;
        proof {
            assert(forall|q: int| 0 <= q < ls.len() ==> kept_ok(#[trigger] ls[q]));
        }
        let mut audio_file: Vec<u8> = Vec::new();
        let mut preview_time: i64 = -1;
        let mut rest: Vec<Vec<u8>> = Vec::new();
        proof {
            assert(audio_file@ =~= Seq::<u8>::empty());
            assert(rest.deep_view() =~= Seq::<Seq<u8>>::empty());
        }
        #[verifier::loop_isolation(false)]
        loop
            invariant
                self.lines == lines0,
                self.src == src0,
                lines0 == old(self).lines,
                src0 == old(self).src,
                forall|q: int| 0 <= q < ls.len() ==> kept_ok(#[trigger] ls[q]),
                ls == self.lines.deep_view(),
                ls.len() == self.lines@.len(),
                0 <= p0 <= self.pos as int <= ls.len(),
                parse_general_rec(ls, p0, Seq::empty(), -1, Seq::empty()) == parse_general_rec(
                    ls,
                    self.pos as int,
                    audio_file@,
                    preview_time as int,
                    rest.deep_view(),
                ),
                audio_file@.len() > 0 ==> crate::text::no_nl(audio_file@) && !crate::text::is_ws(
                    audio_file@[audio_file@.len() - 1],
                ),
                -(TIME_MAX as int) <= preview_time as int <= TIME_MAX as int,
                forall|j: int|
                    0 <= j < rest.deep_view().len() ==> general_rest_line_ok(
                        #[trigger] rest.deep_view()[j],
                    ),
            decreases ls.len() - self.pos,
        {
            let at_end = self.pos == self.lines.len();
            let line = self.read_line();
            let ghost cur = self.pos as int - if at_end { 0int } else { 1int };
            if at_end || is_section_header_or_eof(line.as_slice()) {
                proof {
                    if !at_end {
                        assert(kept_ok(ls[cur]));
                        assert(is_header(ls[cur]));
                    }
                }
                if audio_file.len() == 0 {
                    return Err(ParseError::InvalidBeatmap);
                }
                let g = crate::beatmap::GeneralInfo { audio_file, preview_time, rest };
                proof {
                    assert(g@ =~= GeneralM {
                        audio_file: g.audio_file@,
                        preview_time: g.preview_time as int,
                        rest: g.rest.deep_view(),
                    });
                    assert(g@.wf());
                }
                return Ok((g, line));
            }
            proof {
                assert(line@ == ls[cur]);
                assert(kept_ok(ls[cur]));
                assert(!is_header(ls[cur]));
            }
            let k = find_kv(line.as_slice());
            if k == line.len() {
                return Err(ParseError::InvalidBeatmap);
            }
            let key = crate::text::subvec(line.as_slice(), 0, k);
            let value = crate::text::subvec(line.as_slice(), k + 2, line.len());
            proof {
                assert(key@ == kv_key(ls[cur]));
                assert(value@ == kv_value(ls[cur]));
                if value@.len() > 0 {
                    assert(value@[value@.len() - 1] == ls[cur][ls[cur].len() - 1]);
                    assert forall|j: int| 0 <= j < value@.len() implies value@[j] != crate::text::NL by {
                        assert(value@[j] == ls[cur][k + 2 + j]);
                    }
                }
            }
            if crate::text::eq_bytes(key.as_slice(), crate::beatmap::key_audio_file_bytes()) {
                audio_file = value;
            } else if crate::text::eq_bytes(
                key.as_slice(),
                crate::beatmap::key_preview_time_bytes(),
            ) {
                match crate::numbers::parse_int(value.as_slice(), TIME_MAX) {
                    Some(v) => {
                        proof {
                            crate::numbers::lemma_spec_parse_int_bound(value@, TIME_MAX);
                        }
                        preview_time = v;
                    },
                    None => {
                        return Err(ParseError::InvalidBeatmap);
                    },
                }
            } else {
                let ghost old_deep = rest.deep_view();
                let ghost old_vs = rest@;
                proof {
                    assert(general_rest_line_ok(ls[cur]));
                }
                rest.push(line);
                proof {
                    let d = rest.deep_view();
                    assert forall|j: int| 0 <= j < old_deep.len() implies d[j] == old_deep[j] by {
                        assert(rest@[j] == old_vs[j]);
                    }
                    assert(d[old_deep.len() as int] == ls[cur]);
                    assert(d =~= old_deep.push(ls[cur]));
                }
            }
        }
    }

    /// Parses the `[Metadata]` section into its difficulty label and
    /// remainder.
    fn parse_metadata(&mut self) -> (r: Result<(crate::beatmap::Metadata, Vec<u8>), ParseError>)
        requires
            old(self).lines_ok(),
            old(self).pos <= old(self).lines.deep_view().len(),
        ensures
            final(self).lines == old(self).lines,
            final(self).src == old(self).src,
            final(self).pos <= final(self).lines.deep_view().len(),
            ({
                let ls = old(self).lines.deep_view();
                let p0 = old(self).pos as int;
                let spec = parse_metadata_rec(ls, p0, Seq::empty(), Seq::empty());
                match r {
                    Ok((m, hdr)) => spec is Ok && m@ == spec.unwrap().0 && m@.wf() && term_ok(
                        ls,
                        spec.unwrap().1,
                        hdr@,
                        final(self).pos as int,
                    ),
                    Err(e) => spec == Err::<(MetadataM, int), ParseError>(e),
                }
            }),
    {
        let ghost ls = self.lines.deep_view();
        let ghost p0 = self.pos as int;
        let ghost lines0 = self.lines;
        let ghost src0 = self.src;
        proof {
            assert(forall|q: int| 0 <= q < ls.len() ==> kept_ok(#[trigger] ls[q]));
        }
        let mut diff_name: Vec<u8> = Vec::new();
        let mut rest: Vec<Vec<u8>> = Vec::new();
        proof {
            assert(diff_name@ =~= Seq::<u8>::empty());
            assert(rest.deep_view() =~= Seq::<Seq<u8>>::empty());
        }
        #[verifier::loop_isolation(false)]
        loop
            invariant
                self.lines == lines0,
                self.src == src0,
                lines0 == old(self).lines,
                src0 == old(self).src,
                forall|q: int| 0 <= q < ls.len() ==> kept_ok(#[trigger] ls[q]),
                ls == self.lines.deep_view(),
                ls.len() == self.lines@.len(),
                0 <= p0 <= self.pos as int <= ls.len(),
                parse_metadata_rec(ls, p0, Seq::empty(), Seq::empty()) == parse_metadata_rec(
                    ls,
                    self.pos as int,
                    diff_name@,
                    rest.deep_view(),
                ),
                diff_name@.len() > 0 ==> crate::text::no_nl(diff_name@) && !crate::text::is_ws(
                    diff_name@[diff_name@.len() - 1],
                ),
                forall|j: int|
                    0 <= j < rest.deep_view().len() ==> metadata_rest_line_ok(
                        #[trigger] rest.deep_view()[j],
                    ),
            decreases ls.len() - self.pos,
        {
            let at_end = self.pos == self.lines.len();
            let line = self.read_line();
            let ghost cur = self.pos as int - if at_end { 0int } else { 1int };
            if at_end || is_section_header_or_eof(line.as_slice()) {
                proof {
                    if !at_end {
                        assert(kept_ok(ls[cur]));
                        assert(is_header(ls[cur]));
                    }
                }
                if diff_name.len() == 0 {
                    return Err(ParseError::InvalidBeatmap);
                }
                let m = crate::beatmap::Metadata { diff_name, rest };
                proof {
                    assert(m@ =~= MetadataM {
                        diff_name: m.diff_name@,
                        rest: m.rest.deep_view(),
                    });
                    assert(m@.wf());
                }
                return Ok((m, line));
            }
            proof {
                assert(line@ == ls[cur]);
                assert(kept_ok(ls[cur]));
                assert(!is_header(ls[cur]));
            }
            let k = crate::text::find_byte(line.as_slice(), 0, COLON);
            proof {
                assert(line@.subrange(0, line@.len() as int) =~= line@);
                assert(k - 0 == find_first(line@, COLON));
            }
            if k == line.len() {
                return Err(ParseError::InvalidBeatmap);
            }
            let key = crate::text::subvec(line.as_slice(), 0, k);
            let value = crate::text::subvec(line.as_slice(), k + 1, line.len());
            proof {
                assert(key@ == ls[cur].subrange(0, k as int));
                assert(value@ == ls[cur].subrange(k as int + 1, ls[cur].len() as int));
                if value@.len() > 0 {
                    assert(value@[value@.len() - 1] == ls[cur][ls[cur].len() - 1]);
                    assert forall|j: int| 0 <= j < value@.len() implies value@[j] != crate::text::NL by {
                        assert(value@[j] == ls[cur][k + 1 + j]);
                    }
                }
            }
            if crate::text::eq_bytes(key.as_slice(), crate::beatmap::key_version_bytes()) {
                diff_name = value;
            } else {
                let ghost old_deep = rest.deep_view();
                let ghost old_vs = rest@;
                proof {
                    assert(metadata_rest_line_ok(ls[cur]));
                }
                rest.push(line);
                proof {
                    let d = rest.deep_view();
                    assert forall|j: int| 0 <= j < old_deep.len() implies d[j] == old_deep[j] by {
                        assert(rest@[j] == old_vs[j]);
                    }
                    assert(d[old_deep.len() as int] == ls[cur]);
                    assert(d =~= old_deep.push(ls[cur]));
                }
            }
        }
    }
}

/// Joins the fields of `toks` from index `from` on back into one
/// comma-separated byte string.
fn join_from(toks: &Vec<Vec<u8>>, from: usize) -> (r: Vec<u8>)
    requires
        from <= toks.deep_view().len(),
    ensures
        r@ == join_commas(toks.deep_view().subrange(from as int, toks.deep_view().len() as int)),
{
    let ghost d = toks.deep_view();
    proof {
        assert(d.len() == toks@.len());
    }
    if from == toks.len() {
        proof {
            assert(d.subrange(from as int, d.len() as int) =~= Seq::<Seq<u8>>::empty());
        }
        return Vec::new();
    }
    let first = &toks[from];
    let mut out = crate::text::subvec(first.as_slice(), 0, first.len());
    proof {
        assert(out@ =~= d[from as int]);
        assert(d.subrange(from as int, from as int + 1) =~= seq![d[from as int]]);
        assert(join_commas(seq![d[from as int]]) == d[from as int]);
    }
    let mut i: usize = from + 1;
    #[verifier::loop_isolation(false)]
    while i < toks.len()
        invariant
            from + 1 <= i <= d.len(),
            out@ == join_commas(d.subrange(from as int, i as int)),
        decreases d.len() - i,
    {
        out.push(COMMA);
        let t = &toks[i];
        crate::text::append_bytes(&mut out, t.as_slice());
        proof {
            let pre = d.subrange(from as int, i as int);
            crate::text::lemma_join_commas_snoc(pre, d[i as int]);
            assert(pre.push(d[i as int]) =~= d.subrange(from as int, i as int + 1));
            assert(toks@[i as int]@ == d[i as int]);
        }
        i = i + 1;
    }
    out
}

impl Parser {
    /// Parses the `[TimingPoints]` section.
    fn parse_timing_points(&mut self) -> (r: Result<
        (Vec<crate::beatmap::TimingPoint>, Vec<u8>),
        ParseError,
    >)
        requires
            old(self).lines_ok(),
            old(self).pos <= old(self).lines.deep_view().len(),
        ensures
            final(self).lines == old(self).lines,
            final(self).src == old(self).src,
            final(self).pos <= final(self).lines.deep_view().len(),
            ({
                let ls = old(self).lines.deep_view();
                let p0 = old(self).pos as int;
                let spec = parse_tps_rec(ls, p0, Seq::empty());
                match r {
                    Ok((tps, hdr)) => spec is Ok && tps@.map_values(
                        |tp: crate::beatmap::TimingPoint| tp@,
                    ) == spec.unwrap().0 && (forall|j: int|
                        0 <= j < tps@.len() ==> (#[trigger] tps@[j])@.wf()) && term_ok(
                        ls,
                        spec.unwrap().1,
                        hdr@,
                        final(self).pos as int,
                    ),
                    Err(e) => spec == Err::<(Seq<TimingPointM>, int), ParseError>(e),
                }
            }),
    {
        let ghost ls = self.lines.deep_view();
        let ghost p0 = self.pos as int;
        let ghost lines0 = self.lines;
        let ghost src0 = self.src;
        proof {
            assert(forall|q: int| 0 <= q < ls.len() ==> kept_ok(#[trigger] ls[q]));
        }
        let mut tps: Vec<crate::beatmap::TimingPoint> = Vec::new();
        proof {
            assert(tps@.map_values(|tp: crate::beatmap::TimingPoint| tp@) =~= Seq::<
                TimingPointM,
            >::empty());
        }
        #[verifier::loop_isolation(false)]
        loop
            invariant
                self.lines == lines0,
                self.src == src0,
                ls == self.lines.deep_view(),
                ls.len() == self.lines@.len(),
                0 <= p0 <= self.pos as int <= ls.len(),
                parse_tps_rec(ls, p0, Seq::empty()) == parse_tps_rec(
                    ls,
                    self.pos as int,
                    tps@.map_values(|tp: crate::beatmap::TimingPoint| tp@),
                ),
                forall|j: int| 0 <= j < tps@.len() ==> (#[trigger] tps@[j])@.wf(),
            decreases ls.len() - self.pos,
        {
            let at_end = self.pos == self.lines.len();
            let line = self.read_line();
            let ghost cur = self.pos as int - if at_end {
                0int
            } else {
                1int
            };
            if at_end || is_section_header_or_eof(line.as_slice()) {
                proof {
                    if !at_end {
                        assert(kept_ok(ls[cur]));
                        assert(is_header(ls[cur]));
                    }
                }
                return Ok((tps, line));
            }
            proof {
                assert(line@ == ls[cur]);
                assert(kept_ok(ls[cur]));
                assert(!is_header(ls[cur]));
            }
            let c1 = crate::text::find_byte(line.as_slice(), 0, COMMA);
            proof {
                assert(line@.subrange(0, line@.len() as int) =~= line@);
                assert(c1 - 0 == find_first(line@, COMMA));
            }
            if c1 == line.len() {
                return Err(ParseError::InvalidBeatmap);
            }
            let rest1 = crate::text::subvec(line.as_slice(), c1 + 1, line.len());
            let ghost rest1v = line@.subrange(c1 as int + 1, line@.len() as int);
            let c2 = crate::text::find_byte(rest1.as_slice(), 0, COMMA);
            proof {
                assert(rest1@.subrange(0, rest1@.len() as int) =~= rest1@);
                assert(c2 - 0 == find_first(rest1v, COMMA));
            }
            if c2 == rest1.len() {
                return Err(ParseError::InvalidBeatmap);
            }
            let t_tok = crate::text::subvec(line.as_slice(), 0, c1);
            let b_tok = crate::text::subvec(rest1.as_slice(), 0, c2);
            proof {
                assert(t_tok@ == line@.subrange(0, c1 as int));
                assert(b_tok@ == rest1v.subrange(0, c2 as int));
            }
            let time = match crate::numbers::parse_time(t_tok.as_slice(), TIME_MAX) {
                Some(t) => {
                    proof {
                        crate::numbers::lemma_spec_parse_time_bound(t_tok@, TIME_MAX);
                    }
                    t
                },
                None => {
                    return Err(ParseError::InvalidBeatmap);
                },
            };
            let beat_len = match crate::numbers::parse_decimal(b_tok.as_slice()) {
                Some(bl) => bl,
                None => {
                    return Err(ParseError::InvalidBeatmap);
                },
            };
            let rest = crate::text::subvec(rest1.as_slice(), c2 + 1, rest1.len());
            let tp = crate::beatmap::TimingPoint { time, beat_len, rest };
            proof {
                assert(tp.rest@ == rest1v.subrange(c2 as int + 1, rest1v.len() as int));
                assert(parse_tp_line(ls[cur]) == Some(tp@));
                if tp.rest@.len() > 0 {
                    assert(tp.rest@[tp.rest@.len() - 1] == ls[cur][ls[cur].len() - 1]);
                }
                assert(crate::text::no_nl(tp.rest@)) by {
                    assert forall|j: int|
                        0 <= j < tp.rest@.len() implies tp.rest@[j] != crate::text::NL by {
                        assert(tp.rest@[j] == ls[cur][c1 + 1 + c2 + 1 + j]);
                    }
                }
                assert(tp@.wf());
            }
            let ghost old_tps = tps@;
            tps.push(tp);
            proof {
                assert(tps@.map_values(|x: crate::beatmap::TimingPoint| x@) =~= old_tps.map_values(
                    |x: crate::beatmap::TimingPoint| x@,
                ).push(tp@));
            }
        }
    }

    /// Parses the `[HitObjects]` section, checking that nothing but the end
    /// of the input follows it.
    fn parse_hit_objects(&mut self) -> (r: Result<Vec<crate::beatmap::HitObject>, ParseError>)
        requires
            old(self).lines_ok(),
            old(self).pos <= old(self).lines.deep_view().len(),
        ensures
            final(self).lines == old(self).lines,
            final(self).src == old(self).src,
            final(self).pos <= final(self).lines.deep_view().len(),
            ({
                let ls = old(self).lines.deep_view();
                let p0 = old(self).pos as int;
                let spec = parse_hos_rec(ls, p0, Seq::empty());
                match r {
                    Ok(hos) => spec is Ok && hos@.map_values(|h: crate::beatmap::HitObject| h@)
                        == spec.unwrap().0 && (forall|j: int|
                        0 <= j < hos@.len() ==> (#[trigger] hos@[j])@.wf()) && spec.unwrap().1
                        == ls.len(),
                    Err(e) => spec == Err::<(Seq<HitObjectM>, int), ParseError>(e) || (spec is Ok
                        && spec.unwrap().1 < ls.len() && e == ParseError::InvalidBeatmap),
                }
            }),
    {
        let ghost ls = self.lines.deep_view();
        let ghost p0 = self.pos as int;
        let ghost lines0 = self.lines;
        let ghost src0 = self.src;
        proof {
            assert(forall|q: int| 0 <= q < ls.len() ==> kept_ok(#[trigger] ls[q]));
        }
        let mut hos: Vec<crate::beatmap::HitObject> = Vec::new();
        proof {
            assert(hos@.map_values(|h: crate::beatmap::HitObject| h@) =~= Seq::<
                HitObjectM,
            >::empty());
        }
        #[verifier::loop_isolation(false)]
        loop
            invariant
                self.lines == lines0,
                self.src == src0,
                ls == self.lines.deep_view(),
                ls.len() == self.lines@.len(),
                0 <= p0 <= self.pos as int <= ls.len(),
                parse_hos_rec(ls, p0, Seq::empty()) == parse_hos_rec(
                    ls,
                    self.pos as int,
                    hos@.map_values(|h: crate::beatmap::HitObject| h@),
                ),
                forall|j: int| 0 <= j < hos@.len() ==> (#[trigger] hos@[j])@.wf(),
            decreases ls.len() - self.pos,
        {
            let at_end = self.pos == self.lines.len();
            let line = self.read_line();
            let ghost cur = self.pos as int - if at_end {
                0int
            } else {
                1int
            };
            if at_end || is_section_header_or_eof(line.as_slice()) {
                if line.len() == 0 {
                    return Ok(hos);
                }
                proof {
                    assert(kept_ok(ls[cur]));
                    assert(is_header(ls[cur]));
                    assert(parse_hos_rec(ls, cur, hos@.map_values(
                        |h: crate::beatmap::HitObject| h@,
                    )).unwrap().1 == cur < ls.len());
                }
                return Err(ParseError::InvalidBeatmap);
            }
            proof {
                assert(line@ == ls[cur]);
                assert(kept_ok(ls[cur]));
                assert(!is_header(ls[cur]));
            }
            match Self::parse_hit_object_line(line.as_slice()) {
                Some(h) => {
                    let ghost old_hos = hos@;
                    hos.push(h);
                    proof {
                        assert(hos@.map_values(|x: crate::beatmap::HitObject| x@)
                            =~= old_hos.map_values(|x: crate::beatmap::HitObject| x@).push(h@));
                    }
                },
                None => {
                    return Err(ParseError::InvalidBeatmap);
                },
            }
        }
    }

    /// Parses one hit-object line.
    fn parse_hit_object_line(line: &[u8]) -> (r: Option<crate::beatmap::HitObject>)
        requires
            kept_ok(line@),
            !is_header(line@),
        ensures
            match r {
                Some(h) => parse_ho_line(line@) == Some(h@) && h@.wf(),
                None => parse_ho_line(line@) is None,
            },
    {
        let ghost l = line@;
        let toks = crate::text::split_commas_vec(line);
        let ghost d = toks.deep_view();
        proof {
            assert(d == split_commas(l));
            assert(d.len() == toks@.len());
            assert forall|i: int| 0 <= i < d.len() implies #[trigger] toks@[i]@ == d[i] by {
                assert(toks@[i]@ =~= d[i]);
            }
            crate::text::lemma_split_commas_bytes(l, |b: u8| b != crate::text::NL);
            crate::text::lemma_split_commas_last(l);
            crate::text::lemma_find_first(l, COMMA);
            let k = find_first(l, COMMA);
            if 0 <= k < l.len() {
                assert(d[0] == l.subrange(0, k));
            } else {
                assert(d[0] == l);
            }
            assert forall|j: int| 0 <= j < d[0].len() implies d[0][j] == l[j] by {
                if 0 <= k < l.len() {
                    assert(d[0][j] == l.subrange(0, k)[j]);
                }
            }
        }
        if toks.len() < 5 {
            return None;
        }
        let time = match crate::numbers::parse_int(toks[2].as_slice(), TIME_MAX) {
            Some(t) => {
                proof {
                    crate::numbers::lemma_spec_parse_int_bound(d[2], TIME_MAX);
                }
                t
            },
            None => {
                return None;
            },
        };
        let kind64 = match crate::numbers::parse_digits(toks[3].as_slice(), 2147483647) {
            Some(k) => k,
            None => {
                return None;
            },
        };
        proof {
            crate::numbers::lemma_val_digits_nonneg(d[3]);
        }
        let kind: u32 = kind64 as u32;
        let x = crate::text::subvec(toks[0].as_slice(), 0, toks[0].len());
        let y = crate::text::subvec(toks[1].as_slice(), 0, toks[1].len());
        let sound = crate::text::subvec(toks[4].as_slice(), 0, toks[4].len());
        proof {
            assert(x@ =~= d[0]);
            assert(y@ =~= d[1]);
            assert(sound@ =~= d[4]);
        }
        if kind & 1 == 1 || kind & 2 == 2 {
            let tail = join_from(&toks, 5);
            let h = crate::beatmap::HitObject {
                time,
                params: crate::beatmap::HitObjectParams::NoneUseful,
                x,
                y,
                kind,
                sound,
                tail,
            };
            proof {
                Self::lemma_tail_facts(l, d, 5);
                assert(h@.wf());
                assert(parse_ho_line(l) == Some(h@));
            }
            Some(h)
        } else if kind & 8 == 8 {
            if toks.len() < 6 {
                return None;
            }
            let end = match crate::numbers::parse_int(toks[5].as_slice(), TIME_MAX) {
                Some(e) => {
                    proof {
                        crate::numbers::lemma_spec_parse_int_bound(d[5], TIME_MAX);
                    }
                    e
                },
                None => {
                    return None;
                },
            };
            let tail = join_from(&toks, 6);
            let h = crate::beatmap::HitObject {
                time,
                params: crate::beatmap::HitObjectParams::Spinner(end),
                x,
                y,
                kind,
                sound,
                tail,
            };
            proof {
                Self::lemma_tail_facts(l, d, 6);
                assert(h@.wf());
                assert(parse_ho_line(l) == Some(h@));
            }
            Some(h)
        } else if kind & 128 == 128 {
            if toks.len() < 6 {
                return None;
            }
            let t6 = &toks[5];
            let cc = crate::text::find_byte(t6.as_slice(), 0, COLON);
            proof {
                assert(t6@.subrange(0, t6@.len() as int) =~= t6@);
                assert(cc - 0 == find_first(d[5], COLON));
            }
            if cc == t6.len() {
                return None;
            }
            let end_tok = crate::text::subvec(t6.as_slice(), 0, cc);
            let end = match crate::numbers::parse_int(end_tok.as_slice(), TIME_MAX) {
                Some(e) => {
                    proof {
                        crate::numbers::lemma_spec_parse_int_bound(end_tok@, TIME_MAX);
                    }
                    e
                },
                None => {
                    return None;
                },
            };
            let tail = join_from(&toks, 5);
            let h = crate::beatmap::HitObject {
                time,
                params: crate::beatmap::HitObjectParams::LongNote(end),
                x,
                y,
                kind,
                sound,
                tail,
            };
            proof {
                Self::lemma_tail_facts(l, d, 5);
                let tl = h.tail@;
                assert(tl == join_commas(d.subrange(5, d.len() as int)));
                Self::lemma_long_note_tail(l, d, end as int, cc as int);
                assert(h@.wf());
                assert(parse_ho_line(l) == Some(h@));
            }
            Some(h)
        } else {
            None
        }
    }

    /// The joined tail of a hit-object line: newline-free, trimmed at its
    /// end, and never closing a bracketed header that the line itself does
    /// not close.
    proof fn lemma_tail_facts(l: Seq<u8>, d: Seq<Seq<u8>>, from: int)
        requires
            kept_ok(l),
            !is_header(l),
            d == split_commas(l),
            5 <= from <= d.len(),
        ensures
            ({
                let tl = join_commas(d.subrange(from, d.len() as int));
                &&& crate::text::no_nl(tl)
                &&& tl.len() > 0 ==> !crate::text::is_ws(tl[tl.len() - 1])
                &&& tl.len() > 0 ==> (tl[tl.len() - 1] == 93 ==> l[l.len() - 1] == 93)
            }),
    {
        let sub = d.subrange(from, d.len() as int);
        let tl = join_commas(sub);
        crate::text::lemma_split_commas_bytes(l, |b: u8| b != crate::text::NL);
        assert forall|t: int, j: int|
            0 <= t < sub.len() && 0 <= j < sub[t].len() implies (#[trigger] sub[t][j])
            != crate::text::NL by {
            assert(sub[t] == d[t + from]);
        }
        crate::text::lemma_join_commas_bytes(sub, |b: u8| b != crate::text::NL);
        if sub.len() > 0 {
            crate::text::lemma_join_commas_last(sub);
            crate::text::lemma_split_commas_last(l);
            crate::text::lemma_split_commas_len(l);
            assert(sub.last() == d.last());
            if sub.last().len() > 0 {
                assert(tl.last() == d.last().last());
                assert(d.last().last() == l[l.len() - 1]);
            } else {
                if tl.len() > 0 {
                    assert(tl.last() == COMMA);
                }
            }
        } else {
            assert(tl =~= Seq::<u8>::empty());
        }
    }

    /// Parses the whole beatmap: the version header, then every section in
    /// fixed order, failing on any structural deviation.
    pub fn parse(&mut self) -> (r: Result<crate::beatmap::Beatmap, ParseError>)
        requires
            old(self).wf(),
        ensures
            match r {
                Ok(b) => parse_doc_spec(old(self).spec_src()) == Ok::<BeatmapM, ParseError>(b@)
                    && b@.wf(),
                Err(e) => parse_doc_spec(old(self).spec_src()) == Err::<BeatmapM, ParseError>(e),
            },
    {
        let ghost ls = self.lines.deep_view();
        proof {
            lemma_literal_lens();
            assert(parse_doc_spec(self.src@) == parse_lines_spec(ls));
            assert(forall|q: int| 0 <= q < ls.len() ==> kept_ok(#[trigger] ls[q]));
        }
        let header = self.read_line();
        if !crate::text::starts_with_bytes(
            header.as_slice(),
            crate::beatmap::magic_prefix_bytes(),
        ) {
            return Err(ParseError::InvalidBeatmap);
        }
        proof {
            assert(ls.len() >= 1);
            assert(header@ == ls[0]);
        }
        let suffix = crate::text::subvec(header.as_slice(), 17, header.len());
        proof {
            assert(suffix@ == ls[0].subrange(magic_prefix().len() as int, ls[0].len() as int));
        }
        if !crate::text::eq_bytes(suffix.as_slice(), version_fourteen_bytes()) {
            return Err(ParseError::UnsupportedVersion);
        }
        let line = self.read_line();
        if !crate::text::eq_bytes(line.as_slice(), crate::beatmap::hdr_general_bytes()) {
            return Err(ParseError::InvalidBeatmap);
        }
        proof {
            assert(ls.len() > 1 && ls[1] == crate::beatmap::hdr_general());
            assert(self.pos == 2);
        }
        let (general_info, nh) = match self.parse_general_info() {
            Ok(v) => v,
            Err(e) => {
                return Err(e);
            },
        };
        let ghost i_ed = parse_general_rec(ls, 2, Seq::empty(), -1, Seq::empty()).unwrap().1;
        if !crate::text::eq_bytes(nh.as_slice(), crate::beatmap::hdr_editor_bytes()) {
            return Err(ParseError::InvalidBeatmap);
        }
        proof {
            assert(i_ed < ls.len() && ls[i_ed] == crate::beatmap::hdr_editor());
            assert(self.pos == i_ed + 1);
        }
        let (ed_lines, nh) = self.read_section();
        let editor_info = crate::beatmap::EditorInfo(ed_lines);
        let ghost j_md = read_section_rec(ls, i_ed + 1).1;
        proof {
            lemma_read_section_rec(ls, i_ed + 1);
        }
        if !crate::text::eq_bytes(nh.as_slice(), crate::beatmap::hdr_metadata_bytes()) {
            return Err(ParseError::InvalidBeatmap);
        }
        proof {
            assert(j_md < ls.len() && ls[j_md] == crate::beatmap::hdr_metadata());
            assert(self.pos == j_md + 1);
        }
        let (metadata, nh) = match self.parse_metadata() {
            Ok(v) => v,
            Err(e) => {
                return Err(e);
            },
        };
        let ghost k_df = parse_metadata_rec(ls, j_md + 1, Seq::empty(), Seq::empty()).unwrap().1;
        if !crate::text::eq_bytes(nh.as_slice(), crate::beatmap::hdr_difficulty_bytes()) {
            return Err(ParseError::InvalidBeatmap);
        }
        proof {
            assert(k_df < ls.len() && ls[k_df] == crate::beatmap::hdr_difficulty());
            assert(self.pos == k_df + 1);
        }
        let (df_lines, nh) = self.read_section();
        let difficulty = crate::beatmap::DifficultyInfo(df_lines);
        let ghost p_ev = read_section_rec(ls, k_df + 1).1;
        proof {
            lemma_read_section_rec(ls, k_df + 1);
        }
        if !crate::text::eq_bytes(nh.as_slice(), crate::beatmap::hdr_events_bytes()) {
            return Err(ParseError::InvalidBeatmap);
        }
        proof {
            assert(p_ev < ls.len() && ls[p_ev] == crate::beatmap::hdr_events());
            assert(self.pos == p_ev + 1);
        }
        let (ev_lines, nh) = self.read_section();
        let events = crate::beatmap::Events(ev_lines);
        let ghost q_tp = read_section_rec(ls, p_ev + 1).1;
        proof {
            lemma_read_section_rec(ls, p_ev + 1);
        }
        if !crate::text::eq_bytes(nh.as_slice(), crate::beatmap::hdr_timing_points_bytes()) {
            return Err(ParseError::InvalidBeatmap);
        }
        proof {
            assert(q_tp < ls.len() && ls[q_tp] == crate::beatmap::hdr_timing_points());
            assert(self.pos == q_tp + 1);
        }
        let (timing_points, nh) = match self.parse_timing_points() {
            Ok(v) => v,
            Err(e) => {
                return Err(e);
            },
        };
        let ghost u_cl = parse_tps_rec(ls, q_tp + 1, Seq::empty()).unwrap().1;
        let (colors, nh) = if crate::text::eq_bytes(
            nh.as_slice(),
            crate::beatmap::hdr_colours_bytes(),
        ) {
            proof {
                assert(u_cl < ls.len() && ls[u_cl] == crate::beatmap::hdr_colours());
                assert(self.pos == u_cl + 1);
                lemma_read_section_rec(ls, u_cl + 1);
            }
            let (cl_lines, nh2) = self.read_section();
            (Some(crate::beatmap::Colors(cl_lines)), nh2)
        } else {
            (None, nh)
        };
        let ghost w_ho: int = if u_cl < ls.len() && ls[u_cl] == crate::beatmap::hdr_colours() {
            read_section_rec(ls, u_cl + 1).1
        } else {
            u_cl
        };
        if !crate::text::eq_bytes(nh.as_slice(), crate::beatmap::hdr_hit_objects_bytes()) {
            return Err(ParseError::InvalidBeatmap);
        }
        proof {
            assert(w_ho < ls.len() && ls[w_ho] == crate::beatmap::hdr_hit_objects());
            assert(self.pos == w_ho + 1);
        }
        let hit_objects = match self.parse_hit_objects() {
            Ok(v) => v,
            Err(e) => {
                return Err(e);
            },
        };
        let b = crate::beatmap::Beatmap {
            general_info,
            editor_info,
            metadata,
            difficulty,
            events,
            timing_points,
            colors,
            hit_objects,
        };
        proof {
            let spec = parse_lines_spec(ls);
            assert(spec is Ok);
            assert(b@ =~= spec.unwrap());
            assert(crate::beatmap::section_lines_ok(b@.editor)) by {
                lemma_read_section_rec(ls, i_ed + 1);
                let (ss, _) = read_section_rec(ls, i_ed + 1);
                assert forall|q: int|
                    0 <= q < ss.len() implies crate::beatmap::section_line_ok(
                    #[trigger] ss[q],
                ) by {
                    assert(ss[q] == ls[i_ed + 1 + q]);
                }
            }
            assert(crate::beatmap::section_lines_ok(b@.difficulty)) by {
                lemma_read_section_rec(ls, k_df + 1);
                let (ss, _) = read_section_rec(ls, k_df + 1);
                assert forall|q: int|
                    0 <= q < ss.len() implies crate::beatmap::section_line_ok(
                    #[trigger] ss[q],
                ) by {
                    assert(ss[q] == ls[k_df + 1 + q]);
                }
            }
            assert(crate::beatmap::section_lines_ok(b@.events)) by {
                lemma_read_section_rec(ls, p_ev + 1);
                let (ss, _) = read_section_rec(ls, p_ev + 1);
                assert forall|q: int|
                    0 <= q < ss.len() implies crate::beatmap::section_line_ok(
                    #[trigger] ss[q],
                ) by {
                    assert(ss[q] == ls[p_ev + 1 + q]);
                }
            }
            match b@.colors {
                Some(c) => {
                    assert(crate::beatmap::section_lines_ok(c)) by {
                        lemma_read_section_rec(ls, u_cl + 1);
                        let (ss, _) = read_section_rec(ls, u_cl + 1);
                        assert forall|q: int|
                            0 <= q < ss.len() implies crate::beatmap::section_line_ok(
                            #[trigger] ss[q],
                        ) by {
                            assert(ss[q] == ls[u_cl + 1 + q]);
                        }
                    }
                },
                None => {},
            }
            assert forall|q: int|
                0 <= q < b@.timing_points.len() implies (#[trigger] b@.timing_points[q]).wf() by {
                assert(b@.timing_points[q] == timing_points@[q]@);
            }
            assert forall|q: int|
                0 <= q < b@.hit_objects.len() implies (#[trigger] b@.hit_objects[q]).wf() by {
                assert(b@.hit_objects[q] == hit_objects@[q]@);
            }
            assert(b@.wf());
        }
        Ok(b)
    }

    /// The long-note end time can be read back out of the joined tail.
    proof fn lemma_long_note_tail(l: Seq<u8>, d: Seq<Seq<u8>>, end: int, cc: int)
        requires
            kept_ok(l),
            d == split_commas(l),
            d.len() >= 6,
            cc == find_first(d[5], COLON),
            0 <= cc < d[5].len(),
            spec_parse_int(d[5].subrange(0, cc), TIME_MAX) == Some(end),
        ensures
            crate::beatmap::long_note_tail_ok(join_commas(d.subrange(5, d.len() as int)), end),
    {
        let sub = d.subrange(5, d.len() as int);
        let tl = join_commas(sub);
        let t6 = d[5];
        crate::text::lemma_split_commas_bytes(l, |b: u8| true);
        crate::text::lemma_find_first(t6, COLON);
        if sub.len() == 1 {
            assert(tl == t6);
            assert(find_first(tl, COLON) == cc);
            assert(tl.subrange(0, cc) =~= t6.subrange(0, cc));
            crate::text::lemma_find_first(tl, COMMA);
            assert forall|j: int| 0 <= j < tl.len() implies tl[j] != COMMA by {
                assert(tl[j] == t6[j]);
            }
            crate::text::lemma_find_first_is(tl, COMMA, tl.len() as int);
        } else {
            let rest = sub.subrange(1, sub.len() as int);
            assert(sub[0] == t6);
            assert(tl == t6 + seq![COMMA] + join_commas(rest));
            assert forall|j: int| 0 <= j < cc implies tl[j] != COLON by {
                assert(tl[j] == t6[j]);
            }
            assert(tl[cc] == t6[cc]);
            assert(t6[cc] == COLON);
            crate::text::lemma_find_first_is(tl, COLON, cc);
            assert forall|j: int| 0 <= j < t6.len() implies tl[j] != COMMA by {
                assert(tl[j] == t6[j]);
            }
            assert(tl[t6.len() as int] == COMMA);
            crate::text::lemma_find_first_is(tl, COMMA, t6.len() as int);
            assert(tl.subrange(0, cc) =~= t6.subrange(0, cc));
        }
    }
}

/// Byte-level facts about the rendered header and version lines.
pub proof fn lemma_render_literals()
    ensures
        kept_ok(crate::beatmap::version_line()),
        !is_header(crate::beatmap::version_line()),
        crate::beatmap::version_line().len() > magic_prefix().len(),
        crate::beatmap::version_line().subrange(0, magic_prefix().len() as int) == magic_prefix(),
        crate::beatmap::version_line().subrange(
            magic_prefix().len() as int,
            crate::beatmap::version_line().len() as int,
        ) == version_fourteen(),
        crate::beatmap::version_line()[0] == 111,
        kept_ok(hdr_general()) && is_header(hdr_general()),
        kept_ok(hdr_editor()) && is_header(hdr_editor()),
        kept_ok(hdr_metadata()) && is_header(hdr_metadata()),
        kept_ok(hdr_difficulty()) && is_header(hdr_difficulty()),
        kept_ok(hdr_events()) && is_header(hdr_events()),
        kept_ok(hdr_timing_points()) && is_header(hdr_timing_points()),
        kept_ok(hdr_colours()) && is_header(hdr_colours()),
        kept_ok(hdr_hit_objects()) && is_header(hdr_hit_objects()),
        key_audio_file().len() == 13,
        forall|j: int| 0 <= j < 13 ==> #[trigger] key_audio_file()[j] != COLON,
        key_preview_time().len() == 11,
        forall|j: int| 0 <= j < 11 ==> #[trigger] key_preview_time()[j] != COLON,
        key_version().len() == 7,
        forall|j: int| 0 <= j < 7 ==> #[trigger] key_version()[j] != COLON,
        key_audio_file()[0] == 65,
        key_preview_time()[0] == 80,
        key_version()[0] == 86,
        key_audio_file() != key_preview_time(),
{
    reveal_strlit("osu file format v14");
    reveal_strlit("osu file format v");
    reveal_strlit("14");
    reveal_strlit("[General]");
    reveal_strlit("[Editor]");
    reveal_strlit("[Metadata]");
    reveal_strlit("[Difficulty]");
    reveal_strlit("[Events]");
    reveal_strlit("[TimingPoints]");
    reveal_strlit("[Colours]");
    reveal_strlit("[HitObjects]");
    reveal_strlit("AudioFilename");
    reveal_strlit("PreviewTime");
    reveal_strlit("Version");
    assert(crate::beatmap::version_line().subrange(0, magic_prefix().len() as int)
        =~= magic_prefix());
    assert(crate::beatmap::version_line().subrange(
        magic_prefix().len() as int,
        crate::beatmap::version_line().len() as int,
    ) =~= version_fourteen());
}

/// Every line of a rendered `[General]` block is a kept, non-header line.
pub proof fn lemma_general_lines_kept(g: crate::beatmap::GeneralM)
    requires
        g.wf(),
    ensures
        forall|j: int|
            0 <= j < crate::beatmap::general_lines(g).len() ==> kept_ok(
                #[trigger] crate::beatmap::general_lines(g)[j],
            ) && !is_header(crate::beatmap::general_lines(g)[j]),
{
    lemma_render_literals();
    reveal_strlit("AudioFilename");
    reveal_strlit("PreviewTime");
    let gl = crate::beatmap::general_lines(g);
    let afl = crate::beatmap::audio_file_line(g);
    let ptl = crate::beatmap::preview_time_line(g);
    crate::numbers::lemma_int_digits_bytes(g.preview_time);
    assert(kept_ok(afl) && !is_header(afl)) by {
        assert(afl[0] == key_audio_file()[0]);
        assert(afl.len() >= 16);
        assert(afl[afl.len() - 1] == g.audio_file[g.audio_file.len() - 1]);
        assert forall|i: int| 0 <= i < afl.len() implies afl[i] != crate::text::NL by {
            if i < 13 {
                assert(afl[i] == key_audio_file()[i]);
            } else if i == 13 {
                assert(afl[i] == COLON);
            } else if i == 14 {
                assert(afl[i] == SPACE);
            } else {
                assert(afl[i] == g.audio_file[i - 15]);
            }
        }
        assert(afl[1] == key_audio_file()[1]);
    }
    assert(kept_ok(ptl) && !is_header(ptl)) by {
        assert(ptl[0] == key_preview_time()[0]);
        assert(ptl.len() == 13 + crate::numbers::int_digits(g.preview_time).len());
        assert(ptl[ptl.len() - 1] == crate::numbers::int_digits(g.preview_time).last());
        assert forall|i: int| 0 <= i < ptl.len() implies ptl[i] != crate::text::NL by {
            if i < 11 {
                assert(ptl[i] == key_preview_time()[i]);
            } else if i == 11 {
                assert(ptl[i] == COLON);
            } else if i == 12 {
                assert(ptl[i] == SPACE);
            } else {
                assert(ptl[i] == crate::numbers::int_digits(g.preview_time)[i - 13]);
            }
        }
        assert(ptl[1] == key_preview_time()[1]);
    }
    assert forall|j: int| 0 <= j < gl.len() implies kept_ok(#[trigger] gl[j]) && !is_header(
        gl[j],
    ) by {
        if j == 0 {
            assert(gl[j] == afl);
        } else if j == 1 {
            assert(gl[j] == ptl);
        } else {
            assert(gl[j] == g.rest[j - 2]);
            assert(crate::beatmap::general_rest_line_ok(g.rest[j - 2]));
        }
    }
}

/// Every line of a rendered `[Metadata]` block is a kept, non-header line.
pub proof fn lemma_metadata_lines_kept(m: crate::beatmap::MetadataM)
    requires
        m.wf(),
    ensures
        forall|j: int|
            0 <= j < crate::beatmap::metadata_lines(m).len() ==> kept_ok(
                #[trigger] crate::beatmap::metadata_lines(m)[j],
            ) && !is_header(crate::beatmap::metadata_lines(m)[j]),
{
    lemma_render_literals();
    reveal_strlit("Version");
    let mls = crate::beatmap::metadata_lines(m);
    let vl = crate::beatmap::version_name_line(m);
    assert(kept_ok(vl) && !is_header(vl)) by {
        assert(vl[0] == key_version()[0]);
        assert(vl[vl.len() - 1] == m.diff_name[m.diff_name.len() - 1]);
        assert forall|i: int| 0 <= i < vl.len() implies vl[i] != crate::text::NL by {
            if i < 7 {
                assert(vl[i] == key_version()[i]);
            } else if i == 7 {
                assert(vl[i] == COLON);
            } else {
                assert(vl[i] == m.diff_name[i - 8]);
            }
        }
        assert(vl[1] == key_version()[1]);
    }
    assert forall|j: int| 0 <= j < mls.len() implies kept_ok(#[trigger] mls[j]) && !is_header(
        mls[j],
    ) by {
        if j == 0 {
            assert(mls[j] == vl);
        } else {
            assert(mls[j] == m.rest[j - 1]);
            assert(crate::beatmap::metadata_rest_line_ok(m.rest[j - 1]));
        }
    }
}

/// A rendered timing-point line parses back to the point it came from, and
/// is a kept, non-header line.
pub proof fn lemma_tp_line_parse(tp: TimingPointM)
    requires
        tp.wf(),
    ensures
        parse_tp_line(crate::beatmap::tp_line(tp)) == Some(tp),
        kept_ok(crate::beatmap::tp_line(tp)),
        !is_header(crate::beatmap::tp_line(tp)),
{
    let l = crate::beatmap::tp_line(tp);
    let td = crate::numbers::int_digits(tp.time);
    let bd = crate::numbers::decimal_text(tp.beat_len);
    crate::numbers::lemma_int_digits_bytes(tp.time);
    crate::numbers::lemma_decimal_text_bytes(tp.beat_len);
    assert forall|j: int| 0 <= j < td.len() implies td[j] != COMMA by {
        assert(crate::numbers::is_digit(td[j]) || td[j] == crate::text::MINUS);
    }
    assert forall|j: int| 0 <= j < bd.len() implies bd[j] != COMMA by {
        assert(crate::numbers::is_digit(bd[j]) || bd[j] == crate::text::MINUS || bd[j]
            == crate::text::DOT);
    }
    assert forall|j: int| 0 <= j < td.len() implies l[j] != COMMA by {
        assert(l[j] == td[j]);
    }
    assert(l[td.len() as int] == COMMA);
    crate::text::lemma_find_first_is(l, COMMA, td.len() as int);
    assert(l.subrange(0, td.len() as int) =~= td);
    let rest1 = l.subrange(td.len() as int + 1, l.len() as int);
    assert(rest1 =~= bd + seq![COMMA] + tp.rest);
    assert forall|j: int| 0 <= j < bd.len() implies rest1[j] != COMMA by {
        assert(rest1[j] == bd[j]);
    }
    assert(rest1[bd.len() as int] == COMMA);
    crate::text::lemma_find_first_is(rest1, COMMA, bd.len() as int);
    assert(rest1.subrange(0, bd.len() as int) =~= bd);
    crate::numbers::lemma_time_roundtrip(tp.time, crate::numbers::TIME_MAX);
    crate::numbers::lemma_decimal_roundtrip(tp.beat_len);
    assert(rest1.subrange(bd.len() as int + 1, rest1.len() as int) =~= tp.rest);
    assert(parse_tp_line(l) == Some(tp));
    assert(kept_ok(l)) by {
        assert(l[0] == td[0]);
        assert(crate::numbers::is_digit(l[0]) || l[0] == crate::text::MINUS);
        if tp.rest.len() > 0 {
            assert(l[l.len() - 1] == tp.rest[tp.rest.len() - 1]);
        } else {
            assert(l[l.len() - 1] == COMMA);
        }
        assert forall|i: int| 0 <= i < l.len() implies l[i] != crate::text::NL by {
            if i < td.len() {
                assert(l[i] == td[i]);
            } else if i == td.len() {
            } else if i < td.len() + 1 + bd.len() {
                assert(l[i] == bd[i - td.len() - 1]);
            } else if i == td.len() + 1 + bd.len() {
            } else {
                assert(l[i] == tp.rest[i - td.len() - 2 - bd.len()]);
            }
        }
    }
    assert(!is_header(l)) by {
        assert(l[0] == td[0]);
        assert(crate::numbers::is_digit(l[0]) || l[0] == crate::text::MINUS);
    }
}

/// A rendered hit-object line parses back to the object it came from, and is
/// a kept, non-header line.
#[verifier::rlimit(100)]
pub proof fn lemma_ho_line_parse(h: HitObjectM)
    requires
        h.wf(),
    ensures
        parse_ho_line(crate::beatmap::ho_line(h)) == Some(h),
        kept_ok(crate::beatmap::ho_line(h)),
        !is_header(crate::beatmap::ho_line(h)),
{
    let l = crate::beatmap::ho_line(h);
    let td = crate::numbers::int_digits(h.time);
    let kd = crate::numbers::dec_digits(h.kind as nat);
    crate::numbers::lemma_int_digits_bytes(h.time);
    crate::numbers::lemma_dec_digits(h.kind as nat);
    let tail5: Seq<u8> = match h.params {
        HitObjectParamsM::Spinner(e) => crate::numbers::int_digits(e) + seq![COMMA] + h.tail,
        _ => h.tail,
    };
    assert(l =~= h.x + seq![COMMA] + (h.y + seq![COMMA] + (td + seq![COMMA] + (kd + seq![COMMA]
        + (h.sound + seq![COMMA] + tail5)))));
    crate::text::lemma_split_commas_step(
        h.x,
        h.y + seq![COMMA] + (td + seq![COMMA] + (kd + seq![COMMA] + (h.sound + seq![COMMA]
            + tail5))),
    );
    crate::text::lemma_split_commas_step(
        h.y,
        td + seq![COMMA] + (kd + seq![COMMA] + (h.sound + seq![COMMA] + tail5)),
    );
    assert(crate::text::no_byte(td, COMMA)) by {
        assert forall|j: int| 0 <= j < td.len() implies td[j] != COMMA by {
            assert(crate::numbers::is_digit(td[j]) || td[j] == crate::text::MINUS);
        }
    }
    crate::text::lemma_split_commas_step(td, kd + seq![COMMA] + (h.sound + seq![COMMA] + tail5));
    assert(crate::text::no_byte(kd, COMMA)) by {
        assert forall|j: int| 0 <= j < kd.len() implies kd[j] != COMMA by {
            assert(crate::numbers::is_digit(kd[j]));
        }
    }
    crate::text::lemma_split_commas_step(kd, h.sound + seq![COMMA] + tail5);
    crate::text::lemma_split_commas_step(h.sound, tail5);
    let toks = split_commas(l);
    assert(toks =~= seq![h.x, h.y, td, kd, h.sound] + split_commas(tail5));
    crate::text::lemma_split_commas_len(tail5);
    assert(toks.len() >= 6);
    assert(toks[2] == td && toks[3] == kd && toks[4] == h.sound);
    crate::numbers::lemma_int_roundtrip(h.time, crate::numbers::TIME_MAX);
    crate::numbers::lemma_val_digits_nonneg(kd);
    assert(crate::numbers::spec_parse_digits(kd, 2147483647) == Some(h.kind as u64));
    match h.params {
        HitObjectParamsM::NoneUseful => {
            assert(h.kind & 1 == 1 || h.kind & 2 == 2);
            assert(toks.subrange(5, toks.len() as int) =~= split_commas(h.tail));
            crate::text::lemma_join_split_commas(h.tail);
            assert(parse_ho_line(l) == Some(h));
        },
        HitObjectParamsM::Spinner(e) => {
            assert(!(h.kind & 1 == 1 || h.kind & 2 == 2) && h.kind & 8 == 8);
            let ed = crate::numbers::int_digits(e);
            crate::numbers::lemma_int_digits_bytes(e);
            assert(tail5 =~= ed + seq![COMMA] + h.tail);
            assert(crate::text::no_byte(ed, COMMA)) by {
                assert forall|j: int| 0 <= j < ed.len() implies ed[j] != COMMA by {
                    assert(crate::numbers::is_digit(ed[j]) || ed[j] == crate::text::MINUS);
                }
            }
            crate::text::lemma_split_commas_step(ed, h.tail);
            assert(split_commas(tail5) =~= seq![ed] + split_commas(h.tail));
            assert(toks[5] == ed);
            crate::numbers::lemma_int_roundtrip(e, crate::numbers::TIME_MAX);
            assert(toks.subrange(6, toks.len() as int) =~= split_commas(h.tail));
            crate::text::lemma_join_split_commas(h.tail);
            assert(parse_ho_line(l) == Some(h));
        },
        HitObjectParamsM::LongNote(e) => {
            assert(!(h.kind & 1 == 1 || h.kind & 2 == 2) && !(h.kind & 8 == 8) && h.kind & 128
                == 128);
            let cc = find_first(h.tail, COLON);
            let k44 = find_first(h.tail, COMMA);
            crate::text::lemma_find_first(h.tail, COLON);
            crate::text::lemma_find_first(h.tail, COMMA);
            let t6 = toks[5];
            assert(toks.subrange(5, toks.len() as int) =~= split_commas(h.tail));
            assert(t6 == split_commas(h.tail)[0]);
            assert(t6 == (if 0 <= k44 < h.tail.len() {
                h.tail.subrange(0, k44)
            } else {
                h.tail
            }));
            assert forall|j: int| 0 <= j < cc implies t6[j] != COLON by {
                assert(t6[j] == h.tail[j]);
            }
            assert(t6[cc] == h.tail[cc]);
            crate::text::lemma_find_first_is(t6, COLON, cc);
            assert(t6.subrange(0, cc) =~= h.tail.subrange(0, cc));
            crate::text::lemma_join_split_commas(h.tail);
            assert(parse_ho_line(l) == Some(h));
        },
    }
    assert(kept_ok(l) && !is_header(l)) by {
        let nx = h.x.len() as int;
        if h.x.len() > 0 {
            assert(l[0] == h.x[0]);
        } else {
            assert(l[0] == COMMA);
        }
        if h.tail.len() > 0 {
            assert(l[l.len() - 1] == h.tail[h.tail.len() - 1]);
        } else {
            assert(l[l.len() - 1] == COMMA);
        }
        assert(!is_header(l)) by {
            if l[0] == 91 && l[l.len() - 1] == 93 {
                assert(h.x.len() >= 1 && h.x[0] == 91);
                assert(h.tail.len() >= 1 && h.tail[h.tail.len() - 1] == 93);
            }
        }
        assert(crate::text::no_nl(l)) by {
            let ptx = crate::beatmap::ho_params_text(h.params);
            assert forall|i: int| 0 <= i < l.len() implies l[i] != crate::text::NL by {
                let b1 = nx;
                let b2 = b1 + 1 + h.y.len();
                let b3 = b2 + 1 + td.len();
                let b4 = b3 + 1 + kd.len();
                let b5 = b4 + 1 + h.sound.len();
                let b6 = b5 + ptx.len();
                if i < b1 {
                    assert(l[i] == h.x[i]);
                } else if i == b1 {
                } else if i < b2 {
                    assert(l[i] == h.y[i - b1 - 1]);
                } else if i == b2 {
                } else if i < b3 {
                    assert(l[i] == td[i - b2 - 1]);
                } else if i == b3 {
                } else if i < b4 {
                    assert(l[i] == kd[i - b3 - 1]);
                } else if i == b4 {
                } else if i < b5 {
                    assert(l[i] == h.sound[i - b4 - 1]);
                } else if i < b6 {
                    assert(l[i] == ptx[i - b5]);
                    match h.params {
                        HitObjectParamsM::Spinner(e) => {
                            crate::numbers::lemma_int_digits_bytes(e);
                            let ed = crate::numbers::int_digits(e);
                            if 0 < i - b5 < 1 + ed.len() {
                                assert(ptx[i - b5] == ed[i - b5 - 1]);
                            }
                        },
                        _ => {},
                    }
                } else {
                    assert(l[i] == h.tail[i - b6]);
                }
            }
        }
    }
}

/// A run of rendered lines that the scanners walk parses back to the records
/// they came from: the `[General]` remainder lines.
proof fn lemma_general_rest_parse(
    ls: Seq<Seq<u8>>,
    i: int,
    af: Seq<u8>,
    pt: int,
    done: Seq<Seq<u8>>,
    todo: Seq<Seq<u8>>,
)
    requires
        af.len() > 0,
        0 <= i,
        i + todo.len() <= ls.len(),
        forall|j: int| 0 <= j < todo.len() ==> ls[i + j] == todo[j],
        forall|j: int|
            0 <= j < todo.len() ==> crate::beatmap::general_rest_line_ok(#[trigger] todo[j]),
        i + todo.len() == ls.len() || is_header(ls[i + todo.len()]),
    ensures
        parse_general_rec(ls, i, af, pt, done) == Ok::<(GeneralM, int), ParseError>(
            (GeneralM { audio_file: af, preview_time: pt, rest: done + todo }, i + todo.len()),
        ),
    decreases todo.len(),
{
    if todo.len() == 0 {
        assert(done + todo =~= done);
    } else {
        let l = todo[0];
        assert(ls[i] == l);
        assert(crate::beatmap::general_rest_line_ok(l));
        lemma_general_rest_parse(
            ls,
            i + 1,
            af,
            pt,
            done.push(l),
            todo.subrange(1, todo.len() as int),
        );
        assert(done.push(l) + todo.subrange(1, todo.len() as int) =~= done + todo);
        lemma_render_literals();
        crate::beatmap::lemma_find_kv_sep(l);
    }
}

/// The `[Metadata]` remainder lines.
proof fn lemma_metadata_rest_parse(
    ls: Seq<Seq<u8>>,
    i: int,
    dn: Seq<u8>,
    done: Seq<Seq<u8>>,
    todo: Seq<Seq<u8>>,
)
    requires
        dn.len() > 0,
        0 <= i,
        i + todo.len() <= ls.len(),
        forall|j: int| 0 <= j < todo.len() ==> ls[i + j] == todo[j],
        forall|j: int|
            0 <= j < todo.len() ==> crate::beatmap::metadata_rest_line_ok(#[trigger] todo[j]),
        i + todo.len() == ls.len() || is_header(ls[i + todo.len()]),
    ensures
        parse_metadata_rec(ls, i, dn, done) == Ok::<(MetadataM, int), ParseError>(
            (MetadataM { diff_name: dn, rest: done + todo }, i + todo.len()),
        ),
    decreases todo.len(),
{
    if todo.len() == 0 {
        assert(done + todo =~= done);
    } else {
        let l = todo[0];
        assert(ls[i] == l);
        assert(crate::beatmap::metadata_rest_line_ok(l));
        lemma_metadata_rest_parse(ls, i + 1, dn, done.push(l), todo.subrange(1, todo.len() as int));
        assert(done.push(l) + todo.subrange(1, todo.len() as int) =~= done + todo);
        crate::text::lemma_find_first(l, COLON);
    }
}

/// A whole rendered `[General]` block parses back to its record.
proof fn lemma_general_parse(ls: Seq<Seq<u8>>, i: int, g: GeneralM)
    requires
        g.wf(),
        0 <= i,
        i + 2 + g.rest.len() <= ls.len(),
        forall|j: int|
            0 <= j < crate::beatmap::general_lines(g).len() ==> ls[i + j]
                == crate::beatmap::general_lines(g)[j],
        i + 2 + g.rest.len() == ls.len() || is_header(ls[i + 2 + g.rest.len()]),
    ensures
        parse_general_rec(ls, i, Seq::empty(), -1, Seq::empty()) == Ok::<
            (GeneralM, int),
            ParseError,
        >((g, i + 2 + g.rest.len())),
{
    lemma_render_literals();
    lemma_general_lines_kept(g);
    let gl = crate::beatmap::general_lines(g);
    let afl = crate::beatmap::audio_file_line(g);
    let ptl = crate::beatmap::preview_time_line(g);
    assert(ls[i] == gl[0] && gl[0] == afl);
    assert(ls[i + 1] == gl[1] && gl[1] == ptl);
    assert forall|j: int| 0 <= j < 13 && j + 1 < afl.len() implies !(#[trigger] afl[j] == COLON
        && afl[j + 1] == SPACE) by {
        assert(afl[j] == key_audio_file()[j]);
    }
    assert(afl[13] == COLON && afl[14] == SPACE);
    crate::beatmap::lemma_find_kv_sep_is(afl, 13);
    assert(crate::beatmap::kv_key(afl) =~= key_audio_file());
    assert(crate::beatmap::kv_value(afl) =~= g.audio_file);
    assert forall|j: int| 0 <= j < 11 && j + 1 < ptl.len() implies !(#[trigger] ptl[j] == COLON
        && ptl[j + 1] == SPACE) by {
        assert(ptl[j] == key_preview_time()[j]);
    }
    assert(ptl[11] == COLON && ptl[12] == SPACE);
    crate::beatmap::lemma_find_kv_sep_is(ptl, 11);
    assert(crate::beatmap::kv_key(ptl) =~= key_preview_time());
    assert(crate::beatmap::kv_value(ptl) =~= crate::numbers::int_digits(g.preview_time));
    crate::numbers::lemma_int_roundtrip(g.preview_time, crate::numbers::TIME_MAX);
    assert(parse_general_rec(ls, i, Seq::empty(), -1, Seq::empty()) == parse_general_rec(
        ls,
        i + 1,
        g.audio_file,
        -1,
        Seq::empty(),
    ));
    assert(parse_general_rec(ls, i + 1, g.audio_file, -1, Seq::empty()) == parse_general_rec(
        ls,
        i + 2,
        g.audio_file,
        g.preview_time,
        Seq::empty(),
    ));
    assert forall|j: int| 0 <= j < g.rest.len() implies ls[i + 2 + j] == g.rest[j] by {
        assert(ls[i + 2 + j] == gl[2 + j]);
    }
    lemma_general_rest_parse(
        ls,
        i + 2,
        g.audio_file,
        g.preview_time,
        Seq::empty(),
        g.rest,
    );
    assert(Seq::<Seq<u8>>::empty() + g.rest =~= g.rest);
    assert(GeneralM {
        audio_file: g.audio_file,
        preview_time: g.preview_time,
        rest: Seq::<Seq<u8>>::empty() + g.rest,
    } =~= g);
}

/// A whole rendered `[Metadata]` block parses back to its record.
proof fn lemma_metadata_parse(ls: Seq<Seq<u8>>, i: int, m: MetadataM)
    requires
        m.wf(),
        0 <= i,
        i + 1 + m.rest.len() <= ls.len(),
        forall|j: int|
            0 <= j < crate::beatmap::metadata_lines(m).len() ==> ls[i + j]
                == crate::beatmap::metadata_lines(m)[j],
        i + 1 + m.rest.len() == ls.len() || is_header(ls[i + 1 + m.rest.len()]),
    ensures
        parse_metadata_rec(ls, i, Seq::empty(), Seq::empty()) == Ok::<
            (MetadataM, int),
            ParseError,
        >((m, i + 1 + m.rest.len())),
{
    lemma_render_literals();
    lemma_metadata_lines_kept(m);
    let mls = crate::beatmap::metadata_lines(m);
    let vl = crate::beatmap::version_name_line(m);
    assert(ls[i] == mls[0] && mls[0] == vl);
    assert forall|j: int| 0 <= j < 7 implies vl[j] != COLON by {
        assert(vl[j] == key_version()[j]);
    }
    assert(vl[7] == COLON);
    crate::text::lemma_find_first_is(vl, COLON, 7);
    assert(vl.subrange(0, 7) =~= key_version());
    assert(vl.subrange(8, vl.len() as int) =~= m.diff_name);
    assert(parse_metadata_rec(ls, i, Seq::empty(), Seq::empty()) == parse_metadata_rec(
        ls,
        i + 1,
        m.diff_name,
        Seq::empty(),
    ));
    assert forall|j: int| 0 <= j < m.rest.len() implies ls[i + 1 + j] == m.rest[j] by {
        assert(ls[i + 1 + j] == mls[1 + j]);
    }
    lemma_metadata_rest_parse(ls, i + 1, m.diff_name, Seq::empty(), m.rest);
    assert(Seq::<Seq<u8>>::empty() + m.rest =~= m.rest);
    assert(MetadataM { diff_name: m.diff_name, rest: Seq::<Seq<u8>>::empty() + m.rest } =~= m);
}

/// A run of rendered timing-point lines parses back to the points.
proof fn lemma_tps_parse(ls: Seq<Seq<u8>>, i: int, done: Seq<TimingPointM>, todo: Seq<
    TimingPointM,
>)
    requires
        0 <= i,
        i + todo.len() <= ls.len(),
        forall|j: int|
            0 <= j < todo.len() ==> ls[i + j] == crate::beatmap::tp_line(#[trigger] todo[j]),
        forall|j: int| 0 <= j < todo.len() ==> (#[trigger] todo[j]).wf(),
        i + todo.len() == ls.len() || is_header(ls[i + todo.len()]),
    ensures
        parse_tps_rec(ls, i, done) == Ok::<(Seq<TimingPointM>, int), ParseError>(
            (done + todo, i + todo.len()),
        ),
    decreases todo.len(),
{
    if todo.len() == 0 {
        assert(done + todo =~= done);
    } else {
        lemma_tp_line_parse(todo[0]);
        lemma_tps_parse(ls, i + 1, done.push(todo[0]), todo.subrange(1, todo.len() as int));
        assert(done.push(todo[0]) + todo.subrange(1, todo.len() as int) =~= done + todo);
    }
}

/// A run of rendered hit-object lines parses back to the objects.
proof fn lemma_hos_parse(ls: Seq<Seq<u8>>, i: int, done: Seq<HitObjectM>, todo: Seq<HitObjectM>)
    requires
        0 <= i,
        i + todo.len() <= ls.len(),
        forall|j: int|
            0 <= j < todo.len() ==> ls[i + j] == crate::beatmap::ho_line(#[trigger] todo[j]),
        forall|j: int| 0 <= j < todo.len() ==> (#[trigger] todo[j]).wf(),
        i + todo.len() == ls.len() || is_header(ls[i + todo.len()]),
    ensures
        parse_hos_rec(ls, i, done) == Ok::<(Seq<HitObjectM>, int), ParseError>(
            (done + todo, i + todo.len()),
        ),
    decreases todo.len(),
{
    if todo.len() == 0 {
        assert(done + todo =~= done);
    } else {
        lemma_ho_line_parse(todo[0]);
        lemma_hos_parse(ls, i + 1, done.push(todo[0]), todo.subrange(1, todo.len() as int));
        assert(done.push(todo[0]) + todo.subrange(1, todo.len() as int) =~= done + todo);
    }
}

/// A run of verbatim section lines is read back unchanged.
proof fn lemma_section_parse(ls: Seq<Seq<u8>>, i: int, ss: Seq<Seq<u8>>)
    requires
        0 <= i,
        i + ss.len() <= ls.len(),
        forall|j: int| 0 <= j < ss.len() ==> ls[i + j] == ss[j],
        forall|j: int| 0 <= j < ss.len() ==> !is_header(#[trigger] ss[j]),
        i + ss.len() == ls.len() || is_header(ls[i + ss.len()]),
    ensures
        read_section_rec(ls, i) == (ss, i + ss.len()),
    decreases ss.len(),
{
    if ss.len() == 0 {
        assert(ss =~= Seq::<Seq<u8>>::empty());
        assert(read_section_rec(ls, i).0 == ss);
        assert(read_section_rec(ls, i).1 == i + ss.len());
    } else {
        assert(ls[i] == ss[0]);
        assert(!is_header(ss[0]));
        let sub = ss.subrange(1, ss.len() as int);
        assert forall|j: int| 0 <= j < sub.len() implies ls[i + 1 + j] == sub[j] by {
            assert(sub[j] == ss[j + 1]);
        }
        assert forall|j: int| 0 <= j < sub.len() implies !is_header(#[trigger] sub[j]) by {
            assert(sub[j] == ss[j + 1]);
        }
        lemma_section_parse(ls, i + 1, sub);
        assert(seq![ls[i]] + sub =~= ss);
        assert(read_section_rec(ls, i).0 == seq![ls[i]] + read_section_rec(ls, i + 1).0);
        assert(read_section_rec(ls, i).0 == ss);
        assert(read_section_rec(ls, i).1 == i + ss.len());
    }
}

/// A header line followed by kept lines is a block of kept lines.
proof fn lemma_cons_kept(h: Seq<u8>, ss: Seq<Seq<u8>>)
    requires
        kept_ok(h),
        forall|j: int| 0 <= j < ss.len() ==> kept_ok(#[trigger] ss[j]),
    ensures
        forall|j: int| 0 <= j < (seq![h] + ss).len() ==> kept_ok(#[trigger] (seq![h] + ss)[j]),
{
    assert forall|j: int| 0 <= j < (seq![h] + ss).len() implies kept_ok(
        #[trigger] (seq![h] + ss)[j],
    ) by {
        if j > 0 {
            assert((seq![h] + ss)[j] == ss[j - 1]);
        }
    }
}

/// Every rendered timing-point line is kept and no header.
proof fn lemma_tp_lines_kept(tps: Seq<TimingPointM>)
    requires
        forall|j: int| 0 <= j < tps.len() ==> (#[trigger] tps[j]).wf(),
    ensures
        forall|j: int|
            0 <= j < crate::beatmap::tp_lines(tps).len() ==> kept_ok(
                #[trigger] crate::beatmap::tp_lines(tps)[j],
            ) && !is_header(crate::beatmap::tp_lines(tps)[j]),
{
    assert forall|j: int|
        0 <= j < crate::beatmap::tp_lines(tps).len() implies kept_ok(
        #[trigger] crate::beatmap::tp_lines(tps)[j],
    ) && !is_header(crate::beatmap::tp_lines(tps)[j]) by {
        lemma_tp_line_parse(tps[j]);
    }
}

/// Every rendered hit-object line is kept and no header.
proof fn lemma_ho_lines_kept(hos: Seq<HitObjectM>)
    requires
        forall|j: int| 0 <= j < hos.len() ==> (#[trigger] hos[j]).wf(),
    ensures
        forall|j: int|
            0 <= j < crate::beatmap::ho_lines(hos).len() ==> kept_ok(
                #[trigger] crate::beatmap::ho_lines(hos)[j],
            ) && !is_header(crate::beatmap::ho_lines(hos)[j]),
{
    assert forall|j: int|
        0 <= j < crate::beatmap::ho_lines(hos).len() implies kept_ok(
        #[trigger] crate::beatmap::ho_lines(hos)[j],
    ) && !is_header(crate::beatmap::ho_lines(hos)[j]) by {
        lemma_ho_line_parse(hos[j]);
    }
}

/// The byte form of a rendered record carries no byte-order mark and reads
/// back as exactly its rendered logical lines.
#[verifier::rlimit(100)]
pub proof fn lemma_lines_of_doc(b: BeatmapM)
    requires
        b.wf(),
    ensures
        crate::text::strip_bom(crate::beatmap::doc_bytes(b)) == crate::beatmap::doc_bytes(b),
        crate::text::lines_of(crate::beatmap::doc_bytes(b)) == crate::beatmap::render_lines(b),
{
    lemma_render_literals();
    let g = b.general;
    let m = b.metadata;
    lemma_general_lines_kept(g);
    lemma_metadata_lines_kept(m);
    let gl = crate::beatmap::general_lines(g);
    let mls = crate::beatmap::metadata_lines(m);
    let tls = crate::beatmap::tp_lines(b.timing_points);
    let hls = crate::beatmap::ho_lines(b.hit_objects);
    lemma_tp_lines_kept(b.timing_points);
    lemma_ho_lines_kept(b.hit_objects);
    let blk0 = seq![crate::beatmap::version_line()];
    let blk1 = seq![hdr_general()] + gl;
    let blk2 = seq![hdr_editor()] + b.editor;
    let blk3 = seq![hdr_metadata()] + mls;
    let blk4 = seq![hdr_difficulty()] + b.difficulty;
    let blk5 = seq![hdr_events()] + b.events;
    let blk6 = seq![hdr_timing_points()] + tls;
    let blk8 = seq![hdr_hit_objects()] + hls;
    assert(forall|j: int| 0 <= j < blk0.len() ==> kept_ok(#[trigger] blk0[j]));
    lemma_cons_kept(hdr_general(), gl);
    assert forall|j: int| 0 <= j < b.editor.len() implies kept_ok(#[trigger] b.editor[j]) by {
        assert(crate::beatmap::section_line_ok(b.editor[j]));
    }
    lemma_cons_kept(hdr_editor(), b.editor);
    lemma_cons_kept(hdr_metadata(), mls);
    assert forall|j: int| 0 <= j < b.difficulty.len() implies kept_ok(
        #[trigger] b.difficulty[j],
    ) by {
        assert(crate::beatmap::section_line_ok(b.difficulty[j]));
    }
    lemma_cons_kept(hdr_difficulty(), b.difficulty);
    assert forall|j: int| 0 <= j < b.events.len() implies kept_ok(#[trigger] b.events[j]) by {
        assert(crate::beatmap::section_line_ok(b.events[j]));
    }
    lemma_cons_kept(hdr_events(), b.events);
    lemma_cons_kept(hdr_timing_points(), tls);
    lemma_cons_kept(hdr_hit_objects(), hls);
    let tail_ho = crate::text::emit_lines(blk8);
    let tail_cl: Seq<u8> = match b.colors {
        Some(c) => crate::text::emit_lines(seq![hdr_colours()] + c) + (seq![crate::text::NL]
            + tail_ho),
        None => tail_ho,
    };
    let tail_tp = crate::text::emit_lines(blk6) + (seq![crate::text::NL] + tail_cl);
    let tail_ev = crate::text::emit_lines(blk5) + (seq![crate::text::NL] + tail_tp);
    let tail_df = crate::text::emit_lines(blk4) + (seq![crate::text::NL] + tail_ev);
    let tail_md = crate::text::emit_lines(blk3) + (seq![crate::text::NL] + tail_df);
    let tail_ed = crate::text::emit_lines(blk2) + (seq![crate::text::NL] + tail_md);
    let tail_gn = crate::text::emit_lines(blk1) + (seq![crate::text::NL] + tail_ed);
    let tail_v = crate::text::emit_lines(blk0) + (seq![crate::text::NL] + tail_gn);
    let doc = crate::beatmap::doc_bytes(b);
    assert(doc =~= tail_v);
    crate::text::lemma_lines_of_emit(blk0, seq![crate::text::NL] + tail_gn);
    crate::text::lemma_lines_of_blank(tail_gn);
    crate::text::lemma_lines_of_emit(blk1, seq![crate::text::NL] + tail_ed);
    crate::text::lemma_lines_of_blank(tail_ed);
    crate::text::lemma_lines_of_emit(blk2, seq![crate::text::NL] + tail_md);
    crate::text::lemma_lines_of_blank(tail_md);
    crate::text::lemma_lines_of_emit(blk3, seq![crate::text::NL] + tail_df);
    crate::text::lemma_lines_of_blank(tail_df);
    crate::text::lemma_lines_of_emit(blk4, seq![crate::text::NL] + tail_ev);
    crate::text::lemma_lines_of_blank(tail_ev);
    crate::text::lemma_lines_of_emit(blk5, seq![crate::text::NL] + tail_tp);
    crate::text::lemma_lines_of_blank(tail_tp);
    crate::text::lemma_lines_of_emit(blk6, seq![crate::text::NL] + tail_cl);
    crate::text::lemma_lines_of_blank(tail_cl);
    match b.colors {
        Some(c) => {
            let blkc = seq![hdr_colours()] + c;
            assert forall|j: int| 0 <= j < c.len() implies kept_ok(#[trigger] c[j]) by {
                assert(crate::beatmap::section_line_ok(c[j]));
            }
            lemma_cons_kept(hdr_colours(), c);
            crate::text::lemma_lines_of_emit(blkc, seq![crate::text::NL] + tail_ho);
            crate::text::lemma_lines_of_blank(tail_ho);
        },
        None => {},
    }
    assert(crate::text::emit_lines(blk8) + Seq::<u8>::empty() =~= crate::text::emit_lines(blk8));
    crate::text::lemma_lines_of_emit(blk8, Seq::empty());
    assert(crate::text::lines_of(Seq::<u8>::empty()) =~= Seq::<Seq<u8>>::empty());
    assert(blk8 + Seq::<Seq<u8>>::empty() =~= blk8);
    let ls = crate::beatmap::render_lines(b);
    assert(crate::text::lines_of(doc) =~= ls);
    assert(doc.len() > 0 && doc[0] == crate::beatmap::version_line()[0]) by {
        assert(blk0.subrange(1, 1) =~= Seq::<Seq<u8>>::empty());
        assert(crate::text::emit_lines(Seq::<Seq<u8>>::empty()) =~= Seq::<u8>::empty());
        assert(crate::text::emit_lines(blk0) =~= crate::beatmap::version_line() + seq![
            crate::text::NL,
        ]);
    }
    assert(crate::text::strip_bom(doc) == doc);
}

/// Index of each section header among the rendered logical lines.
pub open spec fn off_editor(b: BeatmapM) -> int {
    2 + crate::beatmap::general_lines(b.general).len() as int
}

pub open spec fn off_metadata(b: BeatmapM) -> int {
    off_editor(b) + 1 + b.editor.len() as int
}

pub open spec fn off_difficulty(b: BeatmapM) -> int {
    off_metadata(b) + 1 + crate::beatmap::metadata_lines(b.metadata).len() as int
}

pub open spec fn off_events(b: BeatmapM) -> int {
    off_difficulty(b) + 1 + b.difficulty.len() as int
}

pub open spec fn off_tps(b: BeatmapM) -> int {
    off_events(b) + 1 + b.events.len() as int
}

pub open spec fn off_after_tps(b: BeatmapM) -> int {
    off_tps(b) + 1 + b.timing_points.len() as int
}

pub open spec fn off_hos(b: BeatmapM) -> int {
    match b.colors {
        Some(c) => off_after_tps(b) + 1 + c.len() as int,
        None => off_after_tps(b),
    }
}

/// What stands at every index of the rendered logical lines.
#[verifier::rlimit(100)]
pub proof fn lemma_render_lines_index(b: BeatmapM)
    ensures
        ({
            let ls = crate::beatmap::render_lines(b);
            let gl = crate::beatmap::general_lines(b.general);
            let mls = crate::beatmap::metadata_lines(b.metadata);
            let tls = crate::beatmap::tp_lines(b.timing_points);
            let hls = crate::beatmap::ho_lines(b.hit_objects);
            &&& ls.len() == off_hos(b) + 1 + hls.len()
            &&& ls[0] == crate::beatmap::version_line()
            &&& ls[1] == hdr_general()
            &&& forall|j: int| 0 <= j < gl.len() ==> ls[2 + j] == #[trigger] gl[j]
            &&& ls[off_editor(b)] == hdr_editor()
            &&& forall|j: int| 0 <= j < b.editor.len() ==> ls[off_editor(b) + 1 + j] == #[trigger] b.editor[j]
            &&& ls[off_metadata(b)] == hdr_metadata()
            &&& forall|j: int| 0 <= j < mls.len() ==> ls[off_metadata(b) + 1 + j] == #[trigger] mls[j]
            &&& ls[off_difficulty(b)] == hdr_difficulty()
            &&& forall|j: int|
                0 <= j < b.difficulty.len() ==> ls[off_difficulty(b) + 1 + j] == #[trigger] b.difficulty[j]
            &&& ls[off_events(b)] == hdr_events()
            &&& forall|j: int| 0 <= j < b.events.len() ==> ls[off_events(b) + 1 + j] == #[trigger] b.events[j]
            &&& ls[off_tps(b)] == hdr_timing_points()
            &&& forall|j: int| 0 <= j < tls.len() ==> ls[off_tps(b) + 1 + j] == #[trigger] tls[j]
            &&& match b.colors {
                Some(c) => ls[off_after_tps(b)] == hdr_colours() && forall|j: int|
                    0 <= j < c.len() ==> ls[off_after_tps(b) + 1 + j] == #[trigger] c[j],
                None => true,
            }
            &&& ls[off_hos(b)] == hdr_hit_objects()
            &&& forall|j: int| 0 <= j < hls.len() ==> ls[off_hos(b) + 1 + j] == #[trigger] hls[j]
        }),
{
}

/// The rendered logical lines of a well-formed record parse back to exactly
/// that record.
#[verifier::rlimit(100)]
pub proof fn lemma_parse_render_lines(b: BeatmapM)
    requires
        b.wf(),
    ensures
        parse_lines_spec(crate::beatmap::render_lines(b)) == Ok::<BeatmapM, ParseError>(b),
{
    lemma_render_literals();
    lemma_render_lines_index(b);
    let g = b.general;
    let m = b.metadata;
    lemma_general_lines_kept(g);
    lemma_metadata_lines_kept(m);
    let gl = crate::beatmap::general_lines(g);
    let mls = crate::beatmap::metadata_lines(m);
    let tls = crate::beatmap::tp_lines(b.timing_points);
    let hls = crate::beatmap::ho_lines(b.hit_objects);
    let ls = crate::beatmap::render_lines(b);
    let ng = gl.len() as int;
    let ne = b.editor.len() as int;
    let nm = mls.len() as int;
    let nd = b.difficulty.len() as int;
    let nev = b.events.len() as int;
    let ntp = tls.len() as int;
    let nho = hls.len() as int;
    let i_he = off_editor(b);
    let i_hm = off_metadata(b);
    let i_hd = off_difficulty(b);
    let i_hev = off_events(b);
    let i_htp = off_tps(b);
    let i_after_tp = off_after_tps(b);
    let i_hho: int = off_hos(b);
    let the_end = i_hho + 1 + nho;
    // the version line
    assert(ls[0].len() >= magic_prefix().len());
    assert(ls[0].subrange(0, magic_prefix().len() as int) == magic_prefix());
    assert(ls[0].subrange(magic_prefix().len() as int, ls[0].len() as int) == version_fourteen());
    // the sections in order
    lemma_general_parse(ls, 2, g);
    lemma_section_parse(ls, i_he + 1, b.editor);
    lemma_metadata_parse(ls, i_hm + 1, m);
    lemma_section_parse(ls, i_hd + 1, b.difficulty);
    lemma_section_parse(ls, i_hev + 1, b.events);
    assert forall|j: int|
        0 <= j < b.timing_points.len() implies ls[i_htp + 1 + j] == crate::beatmap::tp_line(
        #[trigger] b.timing_points[j],
    ) by {
        assert(tls[j] == crate::beatmap::tp_line(b.timing_points[j]));
    }
    lemma_tps_parse(ls, i_htp + 1, Seq::empty(), b.timing_points);
    assert(Seq::<TimingPointM>::empty() + b.timing_points =~= b.timing_points);
    match b.colors {
        Some(c) => {
            lemma_section_parse(ls, i_after_tp + 1, c);
        },
        None => {
            assert(!(i_after_tp < ls.len() && ls[i_after_tp] == hdr_colours())) by {
                assert(ls[i_after_tp] == hdr_hit_objects());
                assert(hdr_hit_objects() != hdr_colours()) by {
                    reveal_strlit("[HitObjects]");
                    reveal_strlit("[Colours]");
                }
            }
        },
    }
    assert forall|j: int|
        0 <= j < b.hit_objects.len() implies ls[i_hho + 1 + j] == crate::beatmap::ho_line(
        #[trigger] b.hit_objects[j],
    ) by {
        assert(hls[j] == crate::beatmap::ho_line(b.hit_objects[j]));
    }
    lemma_hos_parse(ls, i_hho + 1, Seq::empty(), b.hit_objects);
    assert(Seq::<HitObjectM>::empty() + b.hit_objects =~= b.hit_objects);
    assert(parse_lines_spec(ls) == Ok::<BeatmapM, ParseError>(
        BeatmapM {
            general: g,
            editor: b.editor,
            metadata: m,
            difficulty: b.difficulty,
            events: b.events,
            timing_points: b.timing_points,
            colors: b.colors,
            hit_objects: b.hit_objects,
        },
    ));
    assert(BeatmapM {
        general: g,
        editor: b.editor,
        metadata: m,
        difficulty: b.difficulty,
        events: b.events,
        timing_points: b.timing_points,
        colors: b.colors,
        hit_objects: b.hit_objects,
    } =~= b);
}

/// Round-trip identity: serializing any well-formed record and parsing the
/// result gives back exactly that record, so re-parsing a rendered beatmap
/// is lossless.
pub proof fn lemma_serialize_parse_round_trip(b: BeatmapM)
    requires
        b.wf(),
    ensures
        parse_doc_spec(crate::beatmap::doc_bytes(b)) == Ok::<BeatmapM, ParseError>(b),
{
    lemma_lines_of_doc(b);
    lemma_parse_render_lines(b);
}

} // verus!
