//! The pure core of the audio time-stretch pipeline: validating decoded
//! stream metadata, gathering frames into one PCM buffer, partitioning
//! samples into worker chunks, reassembling resampled chunks in dispatch
//! order, and deriving the stretched file's name.

use vstd::prelude::*;

use crate::numbers::{decimal_text, Rate};
use crate::text::DOT;

verus! {

/// Why stretching a beatmap's audio failed.
#[derive(Clone, Copy, PartialEq, Eq, Structural, Debug)]
pub enum AudioStretchError {
    SourceNotFound,
    InvalidSource,
    UnsupportedChannelCount,
    ResampleError,
    LameInitializationError,
    LameEncodingError,
    DestinationIoError,
}

/// One decoded audio frame: interleaved samples and stream metadata.
#[derive(Clone, Debug)]
pub struct AudioFrame {
    pub data: Vec<i16>,
    pub channels: usize,
    pub sample_rate: i32,
    pub bitrate: i32,
}

/// A whole decoded stream: all samples in source order, plus the metadata of
/// its first frame.
#[derive(Clone, Debug)]
pub struct DecodedAudio {
    pub samples: Vec<i16>,
    pub channels: usize,
    pub sample_rate: i32,
    pub bitrate: i32,
}

/// The samples of a frame sequence, concatenated in source order.
pub open spec fn frames_samples(frames: Seq<AudioFrame>) -> Seq<i16> {
    frames.map_values(|f: AudioFrame| f.data@).flatten()
}

/// Validates decoded frames and gathers their samples into one buffer,
/// preserving interleaving and order. An empty stream is an invalid source;
/// more than two reported channels cannot be encoded back.
pub fn assemble_pcm(frames: Vec<AudioFrame>) -> (r: Result<DecodedAudio, AudioStretchError>)
    ensures
        frames@.len() == 0 <==> r == Err::<DecodedAudio, AudioStretchError>(
            AudioStretchError::InvalidSource,
        ),
        frames@.len() > 0 && frames@[0].channels > 2 <==> r == Err::<
            DecodedAudio,
            AudioStretchError,
        >(AudioStretchError::UnsupportedChannelCount),
        match r {
            Ok(d) => frames@.len() > 0 && d.channels == frames@[0].channels && d.channels <= 2
                && d.sample_rate == frames@[0].sample_rate && d.bitrate == frames@[0].bitrate
                && d.samples@ == frames_samples(frames@),
            Err(e) => e == AudioStretchError::InvalidSource || e
                == AudioStretchError::UnsupportedChannelCount,
        },
{
    if frames.len() == 0 {
        return Err(AudioStretchError::InvalidSource);
    }
    let channels = frames[0].channels;
    if channels > 2 {
        return Err(AudioStretchError::UnsupportedChannelCount);
    }
    let sample_rate = frames[0].sample_rate;
    let bitrate = frames[0].bitrate;
    let mut samples: Vec<i16> = Vec::new();
    let mut i: usize = 0;
    proof {
        assert(frames@.subrange(0, 0).map_values(|f: AudioFrame| f.data@).flatten() =~= Seq::<
            i16,
        >::empty());
    }
    #[verifier::loop_isolation(false)]
    while i < frames.len()
        invariant
            0 <= i <= frames@.len(),
            samples@ == frames@.subrange(0, i as int).map_values(
                |f: AudioFrame| f.data@,
            ).flatten(),
        decreases frames@.len() - i,
    {
        let f = &frames[i];
        crate::text::append_i16(&mut samples, f.data.as_slice());
        proof {
            let pre = frames@.subrange(0, i as int).map_values(|f: AudioFrame| f.data@);
            let nxt = frames@.subrange(0, i + 1).map_values(|f: AudioFrame| f.data@);
            assert(nxt =~= pre.push(frames@[i as int].data@));
            pre.lemma_flatten_push(frames@[i as int].data@);
        }
        i = i + 1;
    }
    proof {
        assert(frames@.subrange(0, frames@.len() as int) =~= frames@);
    }
    Ok(DecodedAudio { samples, channels, sample_rate, bitrate })
}

/// The chunk size that spreads `len` samples over `workers` workers, at
/// least one so that taking chunks of degenerate input cannot fail.
pub fn chunk_size_for(len: usize, workers: usize) -> (r: usize)
    requires
        workers >= 1,
    ensures
        r >= 1,
        r == if len == 0 {
            1int
        } else {
            ((len + workers - 1) / (workers as int))
        },
{
    if len == 0 {
        1
    } else {
        let q = (len - 1) / workers;
        proof {
            vstd::arithmetic::div_mod::lemma_fundamental_div_mod((len - 1) as int, workers as int);
            let rr = (len - 1) as int % (workers as int);
            assert((len + workers - 1) as int == (q as int + 1) * (workers as int) + rr)
                by (nonlinear_arith)
                requires
                    (len - 1) as int == (workers as int) * (q as int) + rr,
                    q == (len - 1) as int / (workers as int),
            ;
            vstd::arithmetic::div_mod::lemma_fundamental_div_mod_converse(
                (len + workers - 1) as int,
                workers as int,
                q as int + 1,
                rr,
            );
        }
        q + 1
    }
}

/// Splits samples into contiguous chunks of `chunk_size` (the last may be
/// shorter), preserving order: the concatenation of the chunks is exactly
/// the input.
pub fn split_chunks(samples: &[i16], chunk_size: usize) -> (r: Vec<Vec<i16>>)
    requires
        chunk_size >= 1,
    ensures
        r.deep_view().flatten() == samples@,
        forall|i: int|
            0 <= i < r.deep_view().len() ==> (#[trigger] r.deep_view()[i]).len() <= chunk_size,
        forall|i: int|
            0 <= i < r.deep_view().len() - 1 ==> (#[trigger] r.deep_view()[i]).len()
                == chunk_size,
        forall|i: int|
            0 <= i < r.deep_view().len() ==> #[trigger] r.deep_view()[i]
                == samples@.subrange(
                i * chunk_size,
                if (i + 1) * chunk_size <= samples@.len() {
                    (i + 1) * chunk_size
                } else {
                    samples@.len() as int
                },
            ),
{
    let mut acc: Vec<Vec<i16>> = Vec::new();
    let mut start: usize = 0;
    proof {
        assert(acc.deep_view() =~= Seq::<Seq<i16>>::empty());
        assert(acc.deep_view().flatten() =~= Seq::<i16>::empty());
        assert(samples@.subrange(0, 0) =~= Seq::<i16>::empty());
    }
    #[verifier::loop_isolation(false)]
    while start < samples.len()
        invariant
            0 <= start <= samples@.len(),
            start == acc.deep_view().len() * chunk_size,
            acc.deep_view().flatten() == samples@.subrange(0, start as int),
            forall|i: int|
                0 <= i < acc.deep_view().len() ==> (#[trigger] acc.deep_view()[i]).len()
                    == chunk_size,
            forall|i: int|
                0 <= i < acc.deep_view().len() ==> #[trigger] acc.deep_view()[i]
                    == samples@.subrange(
                    i * chunk_size,
                    if (i + 1) * chunk_size <= samples@.len() {
                        (i + 1) * chunk_size
                    } else {
                        samples@.len() as int
                    },
                ),
        decreases samples@.len() - start,
    {
        let end = if samples.len() - start < chunk_size {
            samples.len()
        } else {
            start + chunk_size
        };
        let chunk = vstd::slice::slice_to_vec(vstd::slice::slice_subrange(samples, start, end));
        let ghost old_deep = acc.deep_view();
        let ghost old_vs = acc@;
        acc.push(chunk);
        proof {
            let d = acc.deep_view();
            assert forall|j: int| 0 <= j < old_deep.len() implies d[j] == old_deep[j] by {
                assert(acc@[j] == old_vs[j]);
            }
            assert(d[old_deep.len() as int] == samples@.subrange(start as int, end as int));
            assert(d =~= old_deep.push(samples@.subrange(start as int, end as int)));
            old_deep.lemma_flatten_push(samples@.subrange(start as int, end as int));
            assert(samples@.subrange(0, start as int) + samples@.subrange(start as int, end as int)
                =~= samples@.subrange(0, end as int));
            assert((old_deep.len() + 1) * chunk_size == old_deep.len() * chunk_size + chunk_size)
                by (nonlinear_arith);
        }
        if end == samples.len() {
            proof {
                assert(acc.deep_view().flatten() == samples@.subrange(0, samples@.len() as int));
                assert(samples@.subrange(0, samples@.len() as int) =~= samples@);
                assert forall|i: int|
                    0 <= i < acc.deep_view().len() - 1 implies (
                #[trigger] acc.deep_view()[i]).len() == chunk_size by {}
            }
            return acc;
        }
        start = end;
    }
    proof {
        assert(samples@.subrange(0, samples@.len() as int) =~= samples@);
    }
    acc
}

/// Recombines resampled chunks in their dispatch order, splitting the
/// interleaved pairs into the left and right channel buffers.
pub fn concat_pairs(chunks: Vec<Vec<(i16, i16)>>) -> (r: (Vec<i16>, Vec<i16>))
    ensures
        ({
            let all = chunks@.map_values(|c: Vec<(i16, i16)>| c@).flatten();
            r.0@ == all.map_values(|p: (i16, i16)| p.0) && r.1@ == all.map_values(
                |p: (i16, i16)| p.1,
            )
        }),
{
    let mut left: Vec<i16> = Vec::new();
    let mut right: Vec<i16> = Vec::new();
    let mut i: usize = 0;
    proof {
        assert(chunks@.subrange(0, 0).map_values(|c: Vec<(i16, i16)>| c@).flatten() =~= Seq::<
            (i16, i16),
        >::empty());
        assert(left@ =~= Seq::<(i16, i16)>::empty().map_values(|p: (i16, i16)| p.0));
        assert(right@ =~= Seq::<(i16, i16)>::empty().map_values(|p: (i16, i16)| p.1));
    }
    #[verifier::loop_isolation(false)]
    while i < chunks.len()
        invariant
            0 <= i <= chunks@.len(),
            ({
                let done = chunks@.subrange(0, i as int).map_values(
                    |c: Vec<(i16, i16)>| c@,
                ).flatten();
                left@ == done.map_values(|p: (i16, i16)| p.0) && right@ == done.map_values(
                    |p: (i16, i16)| p.1,
                )
            }),
        decreases chunks@.len() - i,
    {
        let c = &chunks[i];
        let mut j: usize = 0;
        let ghost done = chunks@.subrange(0, i as int).map_values(
            |c: Vec<(i16, i16)>| c@,
        ).flatten();
        #[verifier::loop_isolation(false)]
        while j < c.len()
            invariant
                0 <= j <= c@.len(),
                c == &chunks[i as int],
                0 <= i < chunks@.len(),
                done == chunks@.subrange(0, i as int).map_values(
                    |c: Vec<(i16, i16)>| c@,
                ).flatten(),
                left@ == (done + c@.subrange(0, j as int)).map_values(|p: (i16, i16)| p.0),
                right@ == (done + c@.subrange(0, j as int)).map_values(|p: (i16, i16)| p.1),
            decreases c@.len() - j,
        {
            let p = c[j];
            left.push(p.0);
            right.push(p.1);
            proof {
                assert(done + c@.subrange(0, j + 1) =~= (done + c@.subrange(0, j as int)).push(
                    c@[j as int],
                ));
                assert((done + c@.subrange(0, j + 1)).map_values(|p: (i16, i16)| p.0) =~= (done
                    + c@.subrange(0, j as int)).map_values(|p: (i16, i16)| p.0).push(p.0));
                assert((done + c@.subrange(0, j + 1)).map_values(|p: (i16, i16)| p.1) =~= (done
                    + c@.subrange(0, j as int)).map_values(|p: (i16, i16)| p.1).push(p.1));
            }
            j = j + 1;
        }
        proof {
            let pre = chunks@.subrange(0, i as int).map_values(|c: Vec<(i16, i16)>| c@);
            let nxt = chunks@.subrange(0, i + 1).map_values(|c: Vec<(i16, i16)>| c@);
            assert(nxt =~= pre.push(chunks@[i as int]@));
            pre.lemma_flatten_push(chunks@[i as int]@);
            assert(c@.subrange(0, c@.len() as int) =~= c@);
        }
        i = i + 1;
    }
    proof {
        assert(chunks@.subrange(0, chunks@.len() as int) =~= chunks@);
    }
    (left, right)
}

#[verifier::external_type_specification]
#[verifier::external_body]
#[verifier::reject_recursive_types(R)]
pub struct ExDecoder<R>(minimp3::Decoder<R>);

#[verifier::external_type_specification]
#[verifier::external_body]
#[verifier::reject_recursive_types(T)]
pub struct ExCursor<T>(std::io::Cursor<T>);

/// One decoding step, with the outside decoder's error cases told apart.
pub enum FrameStep {
    Frame(AudioFrame),
    Eof,
    SkippedData,
    Other,
}

/// Relies on std::io::Cursor::new: wraps an owned byte buffer as a reader.
#[verifier::external_body]
fn new_cursor(data: Vec<u8>) -> std::io::Cursor<Vec<u8>> {
    std::io::Cursor::new(data)
}

/// Relies on minimp3::Decoder::new: builds a decoder over a byte reader.
#[verifier::external_body]
fn decoder_new(src: std::io::Cursor<Vec<u8>>) -> minimp3::Decoder<std::io::Cursor<Vec<u8>>> {
    minimp3::Decoder::new(src)
}

/// Relies on minimp3::Decoder::next_frame: reads the next MP3 frame, telling
/// a decoded frame, the end of the stream, skipped non-frame data, and any
/// other failure apart. Nothing further is assumed about what comes back.
#[verifier::external_body]
fn decoder_next_frame(d: &mut minimp3::Decoder<std::io::Cursor<Vec<u8>>>) -> FrameStep {
    match d.next_frame() {
        Ok(f) => FrameStep::Frame(
            AudioFrame { data: f.data, channels: f.channels, sample_rate: f.sample_rate, bitrate: f.bitrate },
        ),
        Err(minimp3::Error::Eof) => FrameStep::Eof,
        Err(minimp3::Error::SkippedData) => FrameStep::SkippedData,
        Err(minimp3::Error::InsufficientData) => FrameStep::Other,
        Err(minimp3::Error::Io(_)) => FrameStep::Other,
    }
}

/// Decodes an MP3 byte stream to PCM: frames are read until the stream ends,
/// stopping at the first failure that is not the expected end or benign
/// skipped data; zero decoded frames or more frames than bytes is an invalid
/// source, and more than two reported channels cannot be encoded back.
pub fn decode_mp3(data: Vec<u8>) -> (r: Result<DecodedAudio, AudioStretchError>)
    ensures
        match r {
            Ok(d) => d.channels <= 2,
            Err(e) => e == AudioStretchError::InvalidSource || e
                == AudioStretchError::UnsupportedChannelCount,
        },
{
    let n = data.len();
    let cur = new_cursor(data);
    let mut dec = decoder_new(cur);
    let mut frames: Vec<AudioFrame> = Vec::new();
    let mut steps: usize = 0;
    loop
        invariant
            steps <= n,
        decreases n - steps,
    {
        match decoder_next_frame(&mut dec) {
            FrameStep::Frame(f) => {
                if steps == n {
                    return Err(AudioStretchError::InvalidSource);
                }
                frames.push(f);
                steps = steps + 1;
            },
            FrameStep::Eof => {
                break ;
            },
            FrameStep::SkippedData => {
                break ;
            },
            FrameStep::Other => {
                return Err(AudioStretchError::InvalidSource);
            },
        }
    }
    assemble_pcm(frames)
}

/// Caps the output bitrate, bounding output size regardless of the source.
pub fn capped_bitrate(bitrate: i32) -> (r: i32)
    ensures
        r == if bitrate < 128 {
            bitrate
        } else {
            128
        },
{
    if bitrate < 128 {
        bitrate
    } else {
        128
    }
}

/// Expands mono samples to identical interleaved left/right channels, as the
/// two-channel encode back-end requires.
pub fn expand_mono(samples: &[i16]) -> (r: Vec<i16>)
    requires
        samples@.len() * 2 <= usize::MAX,
    ensures
        r@.len() == samples@.len() * 2,
        forall|i: int|
            0 <= i < samples@.len() ==> r@[2 * i] == samples@[i] && r@[2 * i + 1] == samples@[i],
{
    let mut out: Vec<i16> = Vec::new();
    let mut i: usize = 0;
    #[verifier::loop_isolation(false)]
    while i < samples.len()
        invariant
            0 <= i <= samples@.len(),
            out@.len() == 2 * i,
            forall|j: int|
                0 <= j < i ==> out@[2 * j] == samples@[j] && out@[2 * j + 1] == samples@[j],
        decreases samples@.len() - i,
    {
        let s = *vstd::slice::slice_index_get(samples, i);
        out.push(s);
        out.push(s);
        i = i + 1;
    }
    out
}

/// The stretched audio's file name: the rate, with its decimal point
/// replaced by an underscore, appended to the stem, keeping the extension.
/// A name without an extension gives nothing, as the caller treats such a
/// source as invalid.
pub open spec fn spec_stretched_audio_name(name: Seq<u8>, r: Rate) -> Option<Seq<u8>> {
    let d = crate::text::find_last_dot(name);
    if d < 1 {
        None
    } else {
        Some(
            name.subrange(0, d) + seq![95u8] + underscored(decimal_text(r.as_decimal())) + seq![
                DOT,
            ] + name.subrange(d + 1, name.len() as int),
        )
    }
}

/// Dots replaced by underscores.
pub open spec fn underscored(s: Seq<u8>) -> Seq<u8> {
    s.map_values(
        |b: u8|
            if b == DOT {
                95u8
            } else {
                b
            },
    )
}

/// Derives the stretched audio's file name from the original's.
pub fn stretched_audio_name(name: &[u8], rate: &Rate) -> (r: Option<Vec<u8>>)
    requires
        rate.wf(),
    ensures
        match r {
            Some(v) => spec_stretched_audio_name(name@, *rate) == Some(v@),
            None => spec_stretched_audio_name(name@, *rate) is None,
        },
{
    proof {
        crate::text::lemma_find_last(name@, DOT);
    }
    let d = crate::text::rfind_byte(name, DOT);
    if d >= name.len() {
        return None;
    }
    if d == 0 {
        return None;
    }
    let mut out = crate::text::subvec(name, 0, d);
    out.push(95);
    let label = crate::numbers::render_decimal(
        &crate::numbers::Decimal { neg: false, mant: rate.mant, scale: rate.scale },
    );
    let mut i: usize = 0;
    let ghost base = out@;
    #[verifier::loop_isolation(false)]
    while i < label.len()
        invariant
            0 <= i <= label@.len(),
            out@ == base + underscored(label@.subrange(0, i as int)),
        decreases label@.len() - i,
    {
        let b = label[i];
        if b == DOT {
            out.push(95);
        } else {
            out.push(b);
        }
        proof {
            assert(underscored(label@.subrange(0, i + 1)) =~= underscored(
                label@.subrange(0, i as int),
            ).push(
                if label@[i as int] == DOT {
                    95u8
                } else {
                    label@[i as int]
                },
            ));
        }
        i = i + 1;
    }
    out.push(DOT);
    let ext = crate::text::subvec(name, d + 1, name.len());
    crate::text::append_bytes(&mut out, ext.as_slice());
    proof {
        assert(label@.subrange(0, label@.len() as int) =~= label@);
        assert(out@ =~= spec_stretched_audio_name(name@, *rate).unwrap());
    }
    Some(out)
}

} // verus!
