//! Audio (WAV) provider: fixed-duration segmentation of the decoded sample
//! range; each segment becomes a descriptive summary chunk. No waveform
//! analysis is performed.
use crate::chunks::lemma_window_chunk_ids;
use crate::models::{chunks_view, lemma_jv_view_obj, meta_view, result_wf, ChunkV, ContentChunk,
    ContentMetadata, ContentProcessingResult, ContentType, JsonV, JsonValue, MetaMap, MetaMapV,
    MetadataV, ProcessError, opt_string_view};
use crate::segment::{seg_end, seg_ok, seg_start, segment_audio_counts};
use crate::strutil::{dec_of, render_tenths, render_thousandths, tenths_of, thousandths_of,
    u64_to_dec, usize_to_dec};
use vstd::prelude::*;
use vstd::string::*;

verus! {

#[derive(Debug, Clone, Copy, PartialEq, Eq, Structural)]
pub struct AudioProvider;

/// What the WAV decoder reads from a file: the format header and the number
/// of decoded 16-bit samples.
#[derive(Debug, Clone, Copy, PartialEq, Eq, Structural)]
pub struct WavInfo {
    pub sample_rate: u32,
    pub channels: u16,
    pub bits_per_sample: u16,
    pub sample_count: usize,
}

/// What the WAV decoder finds in the given bytes, or nothing when they are
/// not a readable 16-bit WAV file. The outcome depends on the bytes alone.
pub uninterp spec fn wav_info_of(b: Seq<u8>) -> Option<WavInfo>;

/// Relies on hound::WavReader: parses a WAV header from memory and decodes
/// the samples as 16-bit integers, counting them.
#[verifier::external_body]
fn parse_wav(bytes: &Vec<u8>) -> (r: Result<WavInfo, String>)
    ensures
        r matches Ok(w) ==> wav_info_of(bytes@) == Some(w),
        r is Err ==> wav_info_of(bytes@) is None,
{
    let mut reader = match hound::WavReader::new(std::io::Cursor::new(bytes)) {
        Ok(rd) => rd,
        Err(e) => return Err(e.to_string()),
    };
    let spec = reader.spec();
    match reader.samples::<i16>().collect::<Result<Vec<i16>, _>>() {
        Ok(s) => Ok(WavInfo {
            sample_rate: spec.sample_rate, channels: spec.channels,
            bits_per_sample: spec.bits_per_sample, sample_count: s.len(),
        }),
        Err(e) => Err(e.to_string()),
    }
}

/// A sample position in tenths of a second, rounded to the nearest tenth.
pub open spec fn tenths_at(sample: int, rate: int) -> nat {
    (((sample * 10) + (rate / 2)) / rate) as nat
}

/// A sample position in thousandths of a second, rounded to the nearest
/// thousandth.
pub open spec fn millis_at(sample: int, rate: int) -> nat {
    (((sample * 1000) + (rate / 2)) / rate) as nat
}

/// The duration of one segment in the engine's audio chunking: 30 seconds.
pub open spec fn audio_segment_secs() -> u32 {
    30
}

/// How many segments a track of `n` samples yields with `step` samples per
/// segment.
pub open spec fn audio_seg_count(n: int, step: int) -> int {
    if n == 0 {
        0
    } else {
        (n + step - 1) / step
    }
}

/// The metadata of segment chunk `i`.
pub open spec fn audio_chunk_meta(info: WavInfo, i: nat, start: int, end: int) -> MetaMapV {
    seq![
        ("segment_index"@, JsonV::Num(dec_of(i))),
        ("start_sample"@, JsonV::Num(dec_of(start as nat))),
        ("end_sample"@, JsonV::Num(dec_of(end as nat))),
        ("sample_rate"@, JsonV::Num(dec_of(info.sample_rate as nat))),
        ("channels"@, JsonV::Num(dec_of(info.channels as nat))),
        ("bits_per_sample"@, JsonV::Num(dec_of(info.bits_per_sample as nat))),
    ]
}

/// The descriptive summary of segment chunk `i`: ordinal, start and end
/// times in seconds (one decimal place, rounded to the nearest tenth),
/// sample indices, and the format's rate, channel count, and bit depth.
pub open spec fn audio_chunk_content(info: WavInfo, i: nat, start: int, end: int) -> Seq<char> {
    "## Audio Segment "@ + dec_of((i + 1) as nat) + "\n\n**Duration:** "@ + tenths_of(
        tenths_at(start, info.sample_rate as int),
    ) + "s - "@ + tenths_of(tenths_at(end, info.sample_rate as int)) + "s  \n**Samples:** "@
        + dec_of(start as nat) + " - "@ + dec_of(end as nat) + "  \n**Sample Rate:** "@ + dec_of(
        info.sample_rate as nat,
    ) + " Hz  \n**Channels:** "@ + dec_of(info.channels as nat) + "  \n**Bit Depth:** "@ + dec_of(
        info.bits_per_sample as nat,
    ) + " bits\n\n*[Audio content analysis would go here - transcription, audio features, etc.]*"@
}

pub open spec fn audio_chunk_v(info: WavInfo, i: nat, start: int, end: int) -> ChunkV {
    ChunkV {
        id: "audio_segment_"@ + dec_of(i),
        content: audio_chunk_content(info, i, start, end),
        metadata: audio_chunk_meta(info, i, start, end),
    }
}

/// All segment chunks of a track with the given format and sample count.
pub open spec fn audio_chunks_of(info: WavInfo) -> Seq<ChunkV> {
    let n = info.sample_count as int;
    let step = info.sample_rate as int * audio_segment_secs() as int;
    Seq::new(
        audio_seg_count(n, step) as nat,
        |i: int| audio_chunk_v(info, i as nat, seg_start(step, i), seg_end(n, step, i)),
    )
}

/// The additional facts the audio metadata extractor records: duration (in
/// seconds, three decimal places), rate, channels, bit depth.
pub open spec fn audio_additional(info: WavInfo) -> MetaMapV {
    seq![
        (
            "duration_seconds"@,
            JsonV::Num(
                thousandths_of(millis_at(info.sample_count as int, info.sample_rate as int)),
            ),
        ),
        ("sample_rate"@, JsonV::Num(dec_of(info.sample_rate as nat))),
        ("channels"@, JsonV::Num(dec_of(info.channels as nat))),
        ("bits_per_sample"@, JsonV::Num(dec_of(info.bits_per_sample as nat))),
    ]
}

/// The metadata record of a WAV file whose format could be decoded.
pub open spec fn audio_metadata_v(
    info: WavInfo,
    file_name: Option<Seq<char>>,
    file_size: u64,
) -> MetadataV {
    MetadataV {
        content_type: ContentType::Audio,
        file_name: file_name,
        file_size: Some(file_size),
        created_at: None,
        modified_at: None,
        author: None,
        title: None,
        language: None,
        additional: audio_additional(info),
    }
}

/// The metadata record of a WAV file that could not be decoded.
pub open spec fn audio_metadata_fallback(
    file_name: Option<Seq<char>>,
    file_size: u64,
) -> MetadataV {
    MetadataV {
        content_type: ContentType::Audio,
        file_name: file_name,
        file_size: Some(file_size),
        created_at: None,
        modified_at: None,
        author: None,
        title: None,
        language: None,
        additional: Seq::empty(),
    }
}

/// A WAV file is usable when its header decoded, its sample rate is a
/// positive number, and one segment's sample count is representable on this
/// machine.
pub open spec fn wav_usable(b: Seq<u8>) -> bool {
    wav_info_of(b) matches Some(w) && w.sample_rate >= 1 && w.sample_rate as int
        * audio_segment_secs() as int <= usize::MAX as int
}

fn render_time_tenths(sample: usize, rate: u32) -> (r: String)
    requires
        rate >= 1,
    ensures
        r@ == tenths_of(tenths_at(sample as int, rate as int)),
{
    let t: u128 = ((sample as u128) * 10 + (rate as u128) / 2) / (rate as u128);
    render_tenths(t)
}

fn render_duration_millis(sample: usize, rate: u32) -> (r: String)
    requires
        rate >= 1,
    ensures
        r@ == thousandths_of(millis_at(sample as int, rate as int)),
{
    let t: u128 = ((sample as u128) * 1000 + (rate as u128) / 2) / (rate as u128);
    render_thousandths(t)
}

impl AudioProvider {
    pub fn new() -> (r: Self)
        ensures
            r == (AudioProvider {}),
    {
        AudioProvider
    }

    /// Partitions `0..sample_count` into consecutive, non-overlapping
    /// windows of `sample_rate * segment_duration_secs` samples; the final
    /// window is truncated to the remaining sample count.
    pub fn segment_audio(
        &self,
        sample_count: usize,
        sample_rate: u32,
        segment_duration_secs: u32,
    ) -> (r: Vec<(usize, usize)>)
        requires
            sample_rate >= 1,
            segment_duration_secs >= 1,
            sample_rate as int * segment_duration_secs as int <= usize::MAX as int,
        ensures
            ({
                let n = sample_count as int;
                let step = sample_rate as int * segment_duration_secs as int;
                &&& forall|i: int| 0 <= i < r@.len() ==> seg_ok(n, step, i, #[trigger] r@[i])
                &&& r@.len() == audio_seg_count(n, step)
                &&& n > 0 ==> r@.last().1 == n
                &&& forall|i: int| 0 <= i < r@.len() - 1 ==> (#[trigger] r@[i]).1 == r@[i + 1].0
            }),
    {
        segment_audio_counts(sample_count, sample_rate, segment_duration_secs)
    }

    /// Decodes the WAV bytes and produces one summary chunk per 30-second
    /// segment.
    pub fn to_markdown_chunks(&self, bytes: &Vec<u8>) -> (r: Result<
        Vec<ContentChunk>,
        ProcessError,
    >)
        ensures
            wav_usable(bytes@) ==> (r matches Ok(cs) && chunks_view(cs@) == audio_chunks_of(
                wav_info_of(bytes@)->Some_0,
            )),
            !wav_usable(bytes@) ==> (r matches Err(e) && e is DecodeError),
    {
        let info = match parse_wav(bytes) {
            Ok(w) => w,
            Err(e) => {
                return Err(ProcessError::DecodeError(e));
            },
        };
        if info.sample_rate == 0 || (info.sample_rate as u64) * 30 > (usize::MAX as u64) {
            return Err(ProcessError::DecodeError("invalid sample rate".to_owned()));
        }
        let ghost n = info.sample_count as int;
        let ghost step = info.sample_rate as int * audio_segment_secs() as int;
        let segments = self.segment_audio(info.sample_count, info.sample_rate, 30);
        let ghost expected = audio_chunks_of(info);
        let mut out: Vec<ContentChunk> = Vec::new();
        let mut i: usize = 0;
        while i < segments.len()
            invariant
                n == info.sample_count as int,
                step == info.sample_rate as int * audio_segment_secs() as int,
                info.sample_rate >= 1,
                expected == audio_chunks_of(info),
                forall|k: int| 0 <= k < segments@.len() ==> seg_ok(n, step, k, #[trigger] segments@[k]),
                segments@.len() == audio_seg_count(n, step),
                expected.len() == segments@.len(),
                i <= segments@.len(),
                out@.len() == i as int,
                forall|j: int| 0 <= j < i as int ==> #[trigger] out@[j]@ == expected[j],
            decreases segments@.len() - i,
        {
            let (start, end) = segments[i];
            proof {
                assert(seg_ok(n, step, i as int, segments@[i as int]));
            }
            let mut id = "audio_segment_".to_owned();
            let num = usize_to_dec(i);
            id.append(num.as_str());

            let mut content = "## Audio Segment ".to_owned();
            let num1 = usize_to_dec(i + 1);
            content.append(num1.as_str());
            content.append("\n\n**Duration:** ");
            let ts = render_time_tenths(start, info.sample_rate);
            content.append(ts.as_str());
            content.append("s - ");
            let te = render_time_tenths(end, info.sample_rate);
            content.append(te.as_str());
            content.append("s  \n**Samples:** ");
            let ds = usize_to_dec(start);
            content.append(ds.as_str());
            content.append(" - ");
            let de = usize_to_dec(end);
            content.append(de.as_str());
            content.append("  \n**Sample Rate:** ");
            let dr = u64_to_dec(info.sample_rate as u64);
            content.append(dr.as_str());
            content.append(" Hz  \n**Channels:** ");
            let dc = u64_to_dec(info.channels as u64);
            content.append(dc.as_str());
            content.append("  \n**Bit Depth:** ");
            let db = u64_to_dec(info.bits_per_sample as u64);
            content.append(db.as_str());
            content.append(
                " bits\n\n*[Audio content analysis would go here - transcription, audio features, etc.]*",
            );

            let mut metadata: MetaMap = Vec::new();
            metadata.push(("segment_index".to_owned(), JsonValue::Num(usize_to_dec(i))));
            metadata.push(("start_sample".to_owned(), JsonValue::Num(usize_to_dec(start))));
            metadata.push(("end_sample".to_owned(), JsonValue::Num(usize_to_dec(end))));
            metadata.push(
                ("sample_rate".to_owned(), JsonValue::Num(u64_to_dec(info.sample_rate as u64))),
            );
            metadata.push(
                ("channels".to_owned(), JsonValue::Num(u64_to_dec(info.channels as u64))),
            );
            metadata.push(
                (
                    "bits_per_sample".to_owned(),
                    JsonValue::Num(u64_to_dec(info.bits_per_sample as u64)),
                ),
            );
            proof {
                lemma_jv_view_obj(metadata@);
                assert(meta_view(metadata) =~= audio_chunk_meta(
                    info,
                    i as nat,
                    start as int,
                    end as int,
                ));
            }
            let chunk = ContentChunk { id, content, metadata };
            proof {
                assert(chunk@ == expected[i as int]);
            }
            out.push(chunk);
            i = i + 1;
        }
        proof {
            crate::models::lemma_chunks_view(out@);
            assert(chunks_view(out@) =~= expected);
        }
        Ok(out)
    }

    /// The metadata record for a WAV file; needs the decoded format header,
    /// so decoding failure is reported.
    pub fn to_metadata(&self, bytes: &Vec<u8>, file_name: Option<String>, file_size: u64) -> (r:
        Result<ContentMetadata, ProcessError>)
        ensures
            wav_usable(bytes@) ==> (r matches Ok(m) && m@ == audio_metadata_v(
                wav_info_of(bytes@)->Some_0,
                opt_string_view(file_name),
                file_size,
            )),
            !wav_usable(bytes@) ==> (r matches Err(e) && e is DecodeError),
    {
        let info = match parse_wav(bytes) {
            Ok(w) => w,
            Err(e) => {
                return Err(ProcessError::DecodeError(e));
            },
        };
        if info.sample_rate == 0 || (info.sample_rate as u64) * 30 > (usize::MAX as u64) {
            return Err(ProcessError::DecodeError("invalid sample rate".to_owned()));
        }
        let mut additional: MetaMap = Vec::new();
        let dur = render_duration_millis(info.sample_count, info.sample_rate);
        additional.push(("duration_seconds".to_owned(), JsonValue::Num(dur)));
        additional.push(
            ("sample_rate".to_owned(), JsonValue::Num(u64_to_dec(info.sample_rate as u64))),
        );
        additional.push(("channels".to_owned(), JsonValue::Num(u64_to_dec(info.channels as u64))));
        additional.push(
            ("bits_per_sample".to_owned(), JsonValue::Num(u64_to_dec(info.bits_per_sample as u64))),
        );
        proof {
            lemma_jv_view_obj(additional@);
            assert(meta_view(additional) =~= audio_additional(info));
        }
        Ok(
            ContentMetadata {
                content_type: ContentType::Audio,
                file_name,
                file_size: Some(file_size),
                created_at: None,
                modified_at: None,
                author: None,
                title: None,
                language: None,
                additional,
            },
        )
    }

    /// Processes one WAV file: on a readable file, a successful result with
    /// one chunk per segment and the format metadata; otherwise a failed
    /// result carrying the decode error, with no chunks and only the file
    /// facts as metadata.
    pub fn process_content(
        &self,
        bytes: &Vec<u8>,
        file_name: Option<String>,
        file_size: u64,
    ) -> (r: ContentProcessingResult)
        ensures
            result_wf(r@),
            wav_usable(bytes@) ==> r@.success && r@.chunks == audio_chunks_of(
                wav_info_of(bytes@)->Some_0,
            ) && r@.metadata == audio_metadata_v(
                wav_info_of(bytes@)->Some_0,
                opt_string_view(file_name),
                file_size,
            ) && r@.error is None,
            !wav_usable(bytes@) ==> !r@.success && r@.error is Some && r@.chunks == Seq::<
                ChunkV,
            >::empty() && r@.metadata == audio_metadata_fallback(
                opt_string_view(file_name),
                file_size,
            ),
    {
        let name_copy = opt_name_clone(&file_name);
        let chunks_res = self.to_markdown_chunks(bytes);
        match chunks_res {
            Ok(chunks) => {
                let meta_res = self.to_metadata(bytes, name_copy, file_size);
                match meta_res {
                    Ok(metadata) => {
                        let r = ContentProcessingResult {
                            success: true,
                            chunks,
                            metadata,
                            error: None,
                        };
                        proof {
                            let cs = r@.chunks;
                            assert forall|i: int, j: int| 0 <= i < j < cs.len() implies cs[i].id
                                != cs[j].id by {
                                lemma_window_chunk_ids("audio_segment_"@, i as nat, j as nat);
                            }
                            assert forall|i: int| 0 <= i < cs.len() implies #[trigger] cs[i].id.len()
                                > 0 by {
                                lemma_window_chunk_ids("audio_segment_"@, i as nat, (i + 1) as nat);
                            }
                        }
                        r
                    },
                    Err(e) => {
                        // unreachable: metadata decoding succeeds whenever
                        // chunk decoding did
                        let msg = e.message();
                        let r = ContentProcessingResult {
                            success: false,
                            chunks: Vec::new(),
                            metadata: fallback_metadata(file_name, file_size),
                            error: Some(msg),
                        };
                        proof {
                            assert(chunks_view(r.chunks@) =~= Seq::<ChunkV>::empty());
                        }
                        r
                    },
                }
            },
            Err(e) => {
                let msg = e.message();
                let r = ContentProcessingResult {
                    success: false,
                    chunks: Vec::new(),
                    metadata: fallback_metadata(file_name, file_size),
                    error: Some(msg),
                };
                proof {
                    assert(chunks_view(r.chunks@) =~= Seq::<ChunkV>::empty());
                }
                r
            },
        }
    }
}

fn opt_name_clone(o: &Option<String>) -> (r: Option<String>)
    ensures
        opt_string_view(r) == opt_string_view(*o),
{
    match o {
        Option::None => Option::None,
        Option::Some(s) => Option::Some(s.clone()),
    }
}

fn fallback_metadata(file_name: Option<String>, file_size: u64) -> (r: ContentMetadata)
    ensures
        r@ == audio_metadata_fallback(opt_string_view(file_name), file_size),
{
    let r = ContentMetadata {
        content_type: ContentType::Audio,
        file_name,
        file_size: Some(file_size),
        created_at: None,
        modified_at: None,
        author: None,
        title: None,
        language: None,
        additional: Vec::new(),
    };
    proof {
        assert(meta_view(r.additional) =~= Seq::<(Seq<char>, JsonV)>::empty());
    }
    r
}

} // verus!
