//! Loop recordings: the WAV header the instrument writes, and the tempo in it.
//!
//! A loop is an ordinary RIFF/WAVE file with one vendor extension: a `JUNK`
//! chunk labelled `"HyVibe loop file"` carrying six 32-bit little-endian
//! values. `JUNK` is the RIFF chunk type readers are required to skip, so the
//! audio plays anywhere while the metadata is invisible to everything that
//! does not look for it.
//!
//! Of the six values (`1, 200, 7, 8, 4, 0` in the reference loop) only the
//! version and the tempo are named for what they mean. The audio of the
//! reference loop is 370,688 samples at 44,100 Hz: 7 x 4 = 28 beats at
//! 200 BPM is 370,440 samples, and rounding that up to whole 2048-sample DSP
//! blocks gives the file's length exactly.
use vstd::prelude::*;

use vstd::string::StringExecFns;

use crate::text::{decimal, push_decimal};

verus! {

/// Bytes to read from the start of a loop to cover everything here.
///
/// Every loop seen lays its header out identically (`RIFF`/`WAVE`, the
/// 40-byte `JUNK`, a 16-byte `fmt `, then `data`), which puts the first audio
/// sample at exactly this offset. [`parse`] walks the chunks rather than
/// assuming that, so a file that differs is reported as
/// [`LoopError::Truncated`] instead of being misread.
pub const HEADER_PREFIX: usize = 92;

/// The label the vendor writes at the start of its `JUNK` chunk:
/// `"HyVibe loop file"`.
pub const JUNK_LABEL: [u8; 16] = [
    0x48, 0x79, 0x56, 0x69, 0x62, 0x65, 0x20, 0x6c, 0x6f, 0x6f, 0x70, 0x20, 0x66, 0x69, 0x6c, 0x65,
];

/// Count of 32-bit values following the label in the `JUNK` chunk.
pub const META_VALUES: usize = 6;

/// The DSP block the recorder rounds a loop's length up to, in samples.
pub const BLOCK_SAMPLES: u32 = 2048;

/// The vendor's metadata, as six 32-bit values.
///
/// Only `version` and `tempo_bpm` are named for what they mean, because only
/// those two are established. The rest keep positional names on purpose.
#[derive(Debug, Clone, Copy, PartialEq, Eq)]
pub struct LoopMeta {
    /// Format version. `1` in every file seen.
    pub version: u32,
    /// Tempo in beats per minute.
    pub tempo_bpm: u32,
    /// First length field; multiplied by `length_second` it gives the loop's
    /// length in beats. Which of the two counts bars is not known.
    pub length_first: u32,
    /// The value that is not a length. `8` in the reference file.
    pub den: u32,
    /// Second length field. `4` in the reference file.
    pub length_second: u32,
    /// Trailing value. `0` in the reference file; purpose unknown.
    pub trailing: u32,
}

/// The `fmt ` chunk's description of the audio.
#[derive(Debug, Clone, Copy, PartialEq, Eq)]
pub struct Format {
    /// WAVE format tag; `1` is uncompressed PCM.
    pub format_tag: u16,
    /// Channel count.
    pub channels: u16,
    /// Samples per second.
    pub sample_rate: u32,
    /// Bits in one sample of one channel.
    pub bits_per_sample: u16,
}

/// A parsed loop header.
#[derive(Debug, Clone, Copy, PartialEq, Eq)]
pub struct LoopHeader {
    /// What the `fmt ` chunk declares.
    pub format: Format,
    /// Length of the `data` chunk in bytes.
    pub audio_bytes: u32,
    /// Offset of the first audio byte within the file.
    pub audio_offset: usize,
    /// Total file length implied by the `RIFF` header.
    pub file_bytes: u64,
    /// The vendor's metadata, when the `JUNK` chunk carries its label; `None`
    /// for a WAV that is not one of these.
    pub meta: Option<LoopMeta>,
}

/// Why a loop header could not be read.
#[derive(Debug, Clone, Copy, PartialEq, Eq)]
pub enum LoopError {
    /// The bytes do not begin `RIFF....WAVE`.
    NotRiffWave,
    /// The header ran out before a required chunk was found; carries how many
    /// bytes were supplied.
    Truncated {
        /// Bytes that were available.
        got: usize,
    },
    /// No `fmt ` chunk appeared before the end of the supplied bytes.
    NoFormat,
    /// No `data` chunk appeared before the end of the supplied bytes.
    NoData,
}

// ---------------------------------------------------------------------------
// The byte-level grammar
// ---------------------------------------------------------------------------

/// The little-endian 16-bit value at `at`.
pub open spec fn le16(d: Seq<u8>, at: int) -> u16 {
    (d[at] as int + d[at + 1] as int * 0x100) as u16
}

/// The little-endian 32-bit value at `at`.
pub open spec fn le32(d: Seq<u8>, at: int) -> u32 {
    (d[at] as int + d[at + 1] as int * 0x100 + d[at + 2] as int * 0x1_0000 + d[at + 3] as int
        * 0x100_0000) as u32
}

pub open spec fn riff_tag() -> Seq<u8> {
    seq![0x52u8, 0x49, 0x46, 0x46]
}

pub open spec fn wave_tag() -> Seq<u8> {
    seq![0x57u8, 0x41, 0x56, 0x45]
}

pub open spec fn fmt_tag() -> Seq<u8> {
    seq![0x66u8, 0x6d, 0x74, 0x20]
}

pub open spec fn data_tag() -> Seq<u8> {
    seq![0x64u8, 0x61, 0x74, 0x61]
}

pub open spec fn junk_tag() -> Seq<u8> {
    seq![0x4au8, 0x55, 0x4e, 0x4b]
}

/// `"HyVibe loop file"`, the label the vendor writes at the start of its
/// `JUNK` chunk.
pub open spec fn junk_label() -> Seq<u8> {
    seq![
        0x48u8, 0x79, 0x56, 0x69, 0x62, 0x65, 0x20, 0x6c, 0x6f, 0x6f, 0x70, 0x20, 0x66, 0x69,
        0x6c, 0x65,
    ]
}

/// Whether the four bytes at `at` are `tag`.
pub open spec fn tag_at(d: Seq<u8>, at: int, tag: Seq<u8>) -> bool {
    d.subrange(at, at + 4) == tag
}

/// The `Format` a `fmt ` chunk whose body starts at `body` declares.
pub open spec fn format_at(d: Seq<u8>, body: int) -> Format {
    Format {
        format_tag: le16(d, body),
        channels: le16(d, body + 2),
        sample_rate: le32(d, body + 4),
        bits_per_sample: le16(d, body + 14),
    }
}

/// The vendor's six values out of a `JUNK` payload, if it carries the label.
pub open spec fn meta_of(b: Seq<u8>) -> Option<LoopMeta> {
    if b.len() < 16 + 6 * 4 || b.take(16) != junk_label() {
        None
    } else {
        Some(
            LoopMeta {
                version: le32(b, 16),
                tempo_bpm: le32(b, 20),
                length_first: le32(b, 24),
                den: le32(b, 28),
                length_second: le32(b, 32),
                trailing: le32(b, 36),
            },
        )
    }
}

/// Where the chunk after the one at `at` begins: past its eight-byte header
/// and its payload, padded to an even length. An offset past the end is
/// reported as the end, where the walk stops either way.
pub open spec fn next_chunk(d: Seq<u8>, at: int) -> int {
    let size = le32(d, at + 4) as int;
    let next = at + 8 + size + size % 2;
    if next > d.len() {
        d.len() as int
    } else {
        next
    }
}

/// What walking the chunk list from `at` finds, given the `fmt ` and `JUNK`
/// readings so far: the last `fmt ` and the last `JUNK` before the first
/// `data` chunk, and that chunk's length and payload offset. A `fmt ` chunk
/// too short for its sixteen bytes ends the walk as truncation.
pub open spec fn scan_chunks(
    d: Seq<u8>,
    at: int,
    format: Option<Format>,
    meta: Option<LoopMeta>,
) -> Result<(Option<Format>, Option<(u32, int)>, Option<LoopMeta>), LoopError>
    decreases d.len() - at,
{
    if at < 0 || at + 8 > d.len() {
        Ok((format, None, meta))
    } else {
        let size = le32(d, at + 4);
        let body = at + 8;
        if tag_at(d, at, fmt_tag()) {
            if body + 16 > d.len() {
                Err(LoopError::Truncated { got: d.len() as usize })
            } else {
                scan_chunks(d, next_chunk(d, at), Some(format_at(d, body)), meta)
            }
        } else if tag_at(d, at, data_tag()) {
            Ok((format, Some((size, body)), meta))
        } else if tag_at(d, at, junk_tag()) {
            let found = if body + size <= d.len() {
                meta_of(d.subrange(body, body + size))
            } else {
                None
            };
            scan_chunks(d, next_chunk(d, at), format, found)
        } else {
            scan_chunks(d, next_chunk(d, at), format, meta)
        }
    }
}

/// What [`parse`] reads from `d`.
pub open spec fn loop_header_of(d: Seq<u8>) -> Result<LoopHeader, LoopError> {
    let short = LoopError::Truncated { got: d.len() as usize };
    if d.len() < 12 {
        Err(short)
    } else if !tag_at(d, 0, riff_tag()) || !tag_at(d, 8, wave_tag()) {
        Err(LoopError::NotRiffWave)
    } else {
        match scan_chunks(d, 12, None, None) {
            Err(e) => Err(e),
            Ok((format, audio, meta)) => match format {
                None => Err(
                    if d.len() < HEADER_PREFIX {
                        short
                    } else {
                        LoopError::NoFormat
                    },
                ),
                Some(format) => match audio {
                    None => Err(
                        if d.len() < HEADER_PREFIX {
                            short
                        } else {
                            LoopError::NoData
                        },
                    ),
                    Some((audio_bytes, audio_offset)) => Ok(
                        LoopHeader {
                            format,
                            audio_bytes,
                            audio_offset: audio_offset as usize,
                            file_bytes: (le32(d, 4) + 8) as u64,
                            meta,
                        },
                    ),
                },
            },
        }
    }
}

// ---------------------------------------------------------------------------
// Reading
// ---------------------------------------------------------------------------

fn u16_at(data: &[u8], at: usize) -> (r: Option<u16>)
    ensures
        r == (if at + 2 <= data@.len() {
            Some(le16(data@, at as int))
        } else {
            None
        }),
{
    if at >= data.len() || data.len() - at < 2 {
        return None;
    }
    Some((data[at] as u16) + (data[at + 1] as u16) * 0x100)
}

fn u32_at(data: &[u8], at: usize) -> (r: Option<u32>)
    ensures
        r == (if at + 4 <= data@.len() {
            Some(le32(data@, at as int))
        } else {
            None
        }),
{
    if at >= data.len() || data.len() - at < 4 {
        return None;
    }
    Some(
        (data[at] as u32) + (data[at + 1] as u32) * 0x100 + (data[at + 2] as u32) * 0x1_0000 + (
        data[at + 3] as u32) * 0x100_0000,
    )
}

/// Whether the four bytes at `at` are `a b c e`.
fn tag_is(data: &[u8], at: usize, a: u8, b: u8, c: u8, e: u8) -> (r: bool)
    requires
        at + 4 <= data@.len(),
    ensures
        r == tag_at(data@, at as int, seq![a, b, c, e]),
{
    let r = data[at] == a && data[at + 1] == b && data[at + 2] == c && data[at + 3] == e;
    assert(r ==> data@.subrange(at as int, at + 4) =~= seq![a, b, c, e]);
    assert(data@.subrange(at as int, at + 4) =~= seq![a, b, c, e] ==> r) by {
        if data@.subrange(at as int, at + 4) =~= seq![a, b, c, e] {
            assert(data@.subrange(at as int, at + 4)[0] == a);
            assert(data@.subrange(at as int, at + 4)[1] == b);
            assert(data@.subrange(at as int, at + 4)[2] == c);
            assert(data@.subrange(at as int, at + 4)[3] == e);
        }
    }
    r
}

/// Read the vendor's six values out of a `JUNK` payload, if it is theirs.
fn parse_meta(body: &[u8]) -> (r: Option<LoopMeta>)
    ensures
        r == meta_of(body@),
{
    if body.len() < 16 + META_VALUES * 4 {
        return None;
    }
    let mut i: usize = 0;
    while i < 16
        invariant
            i <= 16 <= body@.len(),
            forall|j: int| 0 <= j < i ==> body@[j] == #[trigger] junk_label()[j],
        decreases 16 - i,
    {
        let expected: u8 = if i == 0 {
            0x48
        } else if i == 1 {
            0x79
        } else if i == 2 {
            0x56
        } else if i == 3 {
            0x69
        } else if i == 4 {
            0x62
        } else if i == 5 {
            0x65
        } else if i == 6 {
            0x20
        } else if i == 7 {
            0x6c
        } else if i == 8 {
            0x6f
        } else if i == 9 {
            0x6f
        } else if i == 10 {
            0x70
        } else if i == 11 {
            0x20
        } else if i == 12 {
            0x66
        } else if i == 13 {
            0x69
        } else if i == 14 {
            0x6c
        } else {
            0x65
        };
        assert(expected == junk_label()[i as int]);
        if body[i] != expected {
            assert(body@.take(16)[i as int] != junk_label()[i as int]);
            return None;
        }
        i = i + 1;
    }
    assert(body@.take(16) =~= junk_label());
    let v0 = u32_at(body, 16);
    let v1 = u32_at(body, 20);
    let v2 = u32_at(body, 24);
    let v3 = u32_at(body, 28);
    let v4 = u32_at(body, 32);
    let v5 = u32_at(body, 36);
    match (v0, v1, v2, v3, v4, v5) {
        (Some(version), Some(tempo_bpm), Some(length_first), Some(den), Some(length_second), Some(
            trailing,
        )) => Some(LoopMeta { version, tempo_bpm, length_first, den, length_second, trailing }),
        _ => None,
    }
}

/// Walk the chunk list from offset 12, as [`scan_chunks`] describes.
fn walk_chunks(data: &[u8]) -> (r: Result<(Option<Format>, Option<(u32, usize)>, Option<LoopMeta>), LoopError>)
    requires
        12 <= data@.len(),
    ensures
        match (r, scan_chunks(data@, 12, None, None)) {
            (Ok((f, a, m)), Ok((sf, sa, sm))) => f == sf && m == sm && match (a, sa) {
                (Some((n, off)), Some((sn, soff))) => n == sn && off as int == soff,
                (None, None) => true,
                _ => false,
            },
            (Err(e), Err(se)) => e == se,
            _ => false,
        },
{
    let ghost d = data@;
    let mut format: Option<Format> = None;
    let mut meta: Option<LoopMeta> = None;
    let mut at: usize = 12;
    while data.len() - at >= 8
        invariant
            12 <= at <= data@.len(),
            d == data@,
            scan_chunks(d, 12, None, None) == scan_chunks(d, at as int, format, meta),
        decreases data@.len() - at,
    {
        let size = match u32_at(data, at + 4) {
            Some(n) => n,
            None => return Err(LoopError::Truncated { got: data.len() }),
        };
        let body = at + 8;
        let ghost next = next_chunk(d, at as int);
        let ghost before = (format, meta);
        if tag_is(data, at, 0x66, 0x6d, 0x74, 0x20) {
            assert(seq![0x66u8, 0x6d, 0x74, 0x20] == fmt_tag());
            if data.len() - body < 16 {
                return Err(LoopError::Truncated { got: data.len() });
            }
            let format_tag = match u16_at(data, body) {
                Some(n) => n,
                None => return Err(LoopError::Truncated { got: data.len() }),
            };
            let channels = match u16_at(data, body + 2) {
                Some(n) => n,
                None => return Err(LoopError::Truncated { got: data.len() }),
            };
            let sample_rate = match u32_at(data, body + 4) {
                Some(n) => n,
                None => return Err(LoopError::Truncated { got: data.len() }),
            };
            let bits_per_sample = match u16_at(data, body + 14) {
                Some(n) => n,
                None => return Err(LoopError::Truncated { got: data.len() }),
            };
            format = Some(Format { format_tag, channels, sample_rate, bits_per_sample });
        } else if tag_is(data, at, 0x64, 0x61, 0x74, 0x61) {
            assert(seq![0x64u8, 0x61, 0x74, 0x61] == data_tag());
            assert(!tag_at(d, at as int, fmt_tag())) by {
                assert(d.subrange(at as int, at + 4)[0] == 0x64);
            }
            return Ok((format, Some((size, body)), meta));
        } else if tag_is(data, at, 0x4a, 0x55, 0x4e, 0x4b) {
            assert(seq![0x4au8, 0x55, 0x4e, 0x4b] == junk_tag());
            assert(!tag_at(d, at as int, fmt_tag())) by {
                assert(d.subrange(at as int, at + 4)[0] == 0x4a);
            }
            assert(!tag_at(d, at as int, data_tag())) by {
                assert(d.subrange(at as int, at + 4)[0] == 0x4a);
            }
            if (size as usize) <= data.len() - body {
                meta = parse_meta(&data[body..body + size as usize]);
            } else {
                meta = None;
            }
        } else {
            assert(seq![0x66u8, 0x6d, 0x74, 0x20] == fmt_tag());
            assert(seq![0x64u8, 0x61, 0x74, 0x61] == data_tag());
            assert(seq![0x4au8, 0x55, 0x4e, 0x4b] == junk_tag());
        }
        assert(scan_chunks(d, at as int, before.0, before.1) == scan_chunks(d, next, format, meta));
        let pad = size % 2;
        if (size as u64) + (pad as u64) > (data.len() - body) as u64 {
            assert(next == d.len());
            assert(scan_chunks(d, next, format, meta) == Ok::<_, LoopError>((format, None::<(u32, int)>, meta)));
            return Ok((format, None, meta));
        }
        at = body + size as usize + pad as usize;
        assert(at == next);
    }
    Ok((format, None, meta))
}

/// Read a loop's header from the first bytes of the file.
///
/// Needs only a prefix ([`HEADER_PREFIX`] covers every loop seen), which is
/// what makes indexing a library over Bluetooth affordable.
pub fn parse(data: &[u8]) -> (r: Result<LoopHeader, LoopError>)
    ensures
        r == loop_header_of(data@),
{
    if data.len() < 12 {
        return Err(LoopError::Truncated { got: data.len() });
    }
    let riff = tag_is(data, 0, 0x52, 0x49, 0x46, 0x46);
    let wave = tag_is(data, 8, 0x57, 0x41, 0x56, 0x45);
    assert(seq![0x52u8, 0x49, 0x46, 0x46] == riff_tag());
    assert(seq![0x57u8, 0x41, 0x56, 0x45] == wave_tag());
    if !riff || !wave {
        return Err(LoopError::NotRiffWave);
    }
    let riff_size = match u32_at(data, 4) {
        Some(n) => n,
        None => return Err(LoopError::Truncated { got: data.len() }),
    };
    let file_bytes = riff_size as u64 + 8;
    let (format, audio, meta) = match walk_chunks(data) {
        Ok(found) => found,
        Err(e) => return Err(e),
    };
    let format = match format {
        Some(f) => f,
        None => {
            return Err(
                if data.len() < HEADER_PREFIX {
                    LoopError::Truncated { got: data.len() }
                } else {
                    LoopError::NoFormat
                },
            )
        },
    };
    let (audio_bytes, audio_offset) = match audio {
        Some(a) => a,
        None => {
            return Err(
                if data.len() < HEADER_PREFIX {
                    LoopError::Truncated { got: data.len() }
                } else {
                    LoopError::NoData
                },
            )
        },
    };
    Ok(LoopHeader { format, audio_bytes, audio_offset, file_bytes, meta })
}

// ---------------------------------------------------------------------------
// What the header says about the audio
// ---------------------------------------------------------------------------

/// `n` rounded up to a whole number of [`BLOCK_SAMPLES`] blocks.
pub open spec fn round_up_to_block(n: u64) -> u64 {
    (((n + 2047) / 2048) * 2048) as u64
}

impl LoopMeta {
    /// `length_first * length_second`, saturating at `u32::MAX`.
    pub open spec fn beat_count(self) -> u32 {
        if self.length_first * self.length_second <= u32::MAX {
            (self.length_first * self.length_second) as u32
        } else {
            u32::MAX
        }
    }

    /// Whether `beats * sample_rate * 60` fits in a `u64` (or nothing is
    /// computed, the tempo being zero).
    pub open spec fn nominal_fits(self, sample_rate: u32) -> bool {
        self.tempo_bpm == 0 || self.beat_count() * sample_rate * 60 <= u64::MAX
    }

    /// The beats' duration at the tempo, in samples at `sample_rate`, rounded
    /// down; `None` for a zero tempo.
    pub open spec fn nominal_of(self, sample_rate: u32) -> Option<u64> {
        if self.tempo_bpm == 0 {
            None
        } else {
            Some((self.beat_count() * sample_rate * 60 / self.tempo_bpm as int) as u64)
        }
    }

    /// Whether the nominal length, rounded up to a whole block, fits in a `u64`.
    pub open spec fn expected_fits(self, sample_rate: u32) -> bool {
        &&& self.nominal_fits(sample_rate)
        &&& (self.tempo_bpm == 0 || self.beat_count() * sample_rate * 60 / self.tempo_bpm as int
            <= u64::MAX - 2047)
    }

    /// The nominal length rounded up to a whole block.
    pub open spec fn expected_of(self, sample_rate: u32) -> Option<u64> {
        match self.nominal_of(sample_rate) {
            Some(n) => Some(round_up_to_block(n)),
            None => None,
        }
    }

    /// The loop's length in beats.
    ///
    /// The product is measured; its factorisation is not.
    pub fn beats(&self) -> (r: u32)
        ensures
            r == self.beat_count(),
    {
        match self.length_first.checked_mul(self.length_second) {
            Some(n) => n,
            None => u32::MAX,
        }
    }

    /// How long [`beats`](Self::beats) lasts at `tempo_bpm`, in samples at
    /// `sample_rate`, before block rounding; `None` when the tempo is zero.
    pub fn nominal_samples(&self, sample_rate: u32) -> (r: Option<u64>)
        requires
            self.nominal_fits(sample_rate),
        ensures
            r == self.nominal_of(sample_rate),
    {
        if self.tempo_bpm == 0 {
            return None;
        }
        let beats = self.beats();
        assert(beats as int * sample_rate as int <= 0xffff_ffff * 0xffff_ffff) by (nonlinear_arith)
            requires
                beats <= 0xffff_ffff,
                sample_rate <= 0xffff_ffff,
        ;
        let product = beats as u64 * sample_rate as u64;
        Some(product * 60 / self.tempo_bpm as u64)
    }

    /// [`nominal_samples`](Self::nominal_samples) rounded up to a whole
    /// [`BLOCK_SAMPLES`] block, which is what the recorder actually writes.
    pub fn expected_samples(&self, sample_rate: u32) -> (r: Option<u64>)
        requires
            self.expected_fits(sample_rate),
        ensures
            r == self.expected_of(sample_rate),
    {
        let nominal = match self.nominal_samples(sample_rate) {
            Some(n) => n,
            None => return None,
        };
        let block = BLOCK_SAMPLES as u64;
        let blocks = if nominal % block == 0 {
            nominal / block
        } else {
            nominal / block + 1
        };
        assert(blocks == (nominal + 2047) / 2048);
        Some(blocks * block)
    }
}

impl Format {
    /// Bytes in one sample across all channels.
    pub open spec fn frame_size(self) -> u32 {
        (self.channels * ((self.bits_per_sample + 7) / 8)) as u32
    }

    /// Bytes occupied by one sample across all channels.
    pub fn frame_bytes(&self) -> (r: u32)
        ensures
            r == self.frame_size(),
            r as int == self.channels * ((self.bits_per_sample + 7) / 8),
    {
        let per_channel = (self.bits_per_sample as u32 + 7) / 8;
        assert(self.channels as int * per_channel as int <= 0xffff * 0x2000) by (nonlinear_arith)
            requires
                self.channels <= 0xffff,
                per_channel <= 0x2000,
        ;
        self.channels as u32 * per_channel
    }
}

impl LoopHeader {
    /// Audio length in whole samples per channel: zero when a frame has no
    /// bytes.
    pub open spec fn sample_count(self) -> u32 {
        let frame = self.format.frame_size();
        if frame == 0 {
            0
        } else {
            self.audio_bytes / frame
        }
    }

    /// Audio length in whole samples per channel.
    pub fn samples(&self) -> (r: u32)
        ensures
            r == self.sample_count(),
    {
        let frame = self.format.frame_bytes();
        if frame == 0 {
            return 0;
        }
        self.audio_bytes / frame
    }

    /// Whether the audio is the length the metadata's tempo implies; `None`
    /// when there is no metadata, or no tempo, to check against.
    pub fn tempo_agrees_with_audio(&self) -> (r: Option<bool>)
        requires
            self.meta matches Some(m) ==> m.expected_fits(self.format.sample_rate),
        ensures
            r == match self.meta {
                None => None,
                Some(m) => match m.expected_of(self.format.sample_rate) {
                    None => None,
                    Some(e) => Some(e == self.sample_count() as u64),
                },
            },
    {
        let meta = match self.meta {
            Some(m) => m,
            None => return None,
        };
        let expected = match meta.expected_samples(self.format.sample_rate) {
            Some(e) => e,
            None => return None,
        };
        Some(expected == self.samples() as u64)
    }
}

impl LoopError {
    /// A human-readable description of the error.
    pub fn message(&self) -> (s: String)
        ensures
            s@ == match *self {
                LoopError::NotRiffWave => "not a RIFF/WAVE file"@,
                LoopError::Truncated { got } => "header incomplete in "@ + decimal(got as nat)
                    + " bytes; read at least "@ + decimal(HEADER_PREFIX as nat),
                LoopError::NoFormat => "no fmt chunk"@,
                LoopError::NoData => "no data chunk"@,
            },
    {
        match self {
            LoopError::NotRiffWave => String::from_str("not a RIFF/WAVE file"),
            LoopError::Truncated { got } => {
                let mut s = String::from_str("header incomplete in ");
                push_decimal(&mut s, *got as u64);
                s.append(" bytes; read at least ");
                push_decimal(&mut s, HEADER_PREFIX as u64);
                s
            },
            LoopError::NoFormat => String::from_str("no fmt chunk"),
            LoopError::NoData => String::from_str("no data chunk"),
        }
    }
}

// ---------------------------------------------------------------------------
// Laws
// ---------------------------------------------------------------------------

/// Byte `k` (0 to 3, least significant first) of `x`.
pub open spec fn byte_of(x: int, k: int) -> u8 {
    (if k == 0 {
        x % 0x100
    } else if k == 1 {
        (x / 0x100) % 0x100
    } else if k == 2 {
        (x / 0x1_0000) % 0x100
    } else {
        (x / 0x100_0000) % 0x100
    }) as u8
}

/// The plainest WAV header: `RIFF`, its size, `WAVE`, a sixteen-byte `fmt `
/// chunk with the given fields, and a `data` chunk of `audio_bytes`, every
/// number written little-endian.
pub open spec fn plain_wave_header(
    riff_size: u32,
    format_tag: u16,
    channels: u16,
    sample_rate: u32,
    byte_rate: u32,
    block_align: u16,
    bits_per_sample: u16,
    audio_bytes: u32,
) -> Seq<u8> {
    seq![
        0x52u8, 0x49, 0x46, 0x46,
        byte_of(riff_size as int, 0), byte_of(riff_size as int, 1),
        byte_of(riff_size as int, 2), byte_of(riff_size as int, 3),
        0x57, 0x41, 0x56, 0x45,
        0x66, 0x6d, 0x74, 0x20,
        16, 0, 0, 0,
        byte_of(format_tag as int, 0), byte_of(format_tag as int, 1),
        byte_of(channels as int, 0), byte_of(channels as int, 1),
        byte_of(sample_rate as int, 0), byte_of(sample_rate as int, 1),
        byte_of(sample_rate as int, 2), byte_of(sample_rate as int, 3),
        byte_of(byte_rate as int, 0), byte_of(byte_rate as int, 1),
        byte_of(byte_rate as int, 2), byte_of(byte_rate as int, 3),
        byte_of(block_align as int, 0), byte_of(block_align as int, 1),
        byte_of(bits_per_sample as int, 0), byte_of(bits_per_sample as int, 1),
        0x64, 0x61, 0x74, 0x61,
        byte_of(audio_bytes as int, 0), byte_of(audio_bytes as int, 1),
        byte_of(audio_bytes as int, 2), byte_of(audio_bytes as int, 3),
    ]
}

proof fn lemma_bytes_of_u32(x: u32)
    ensures
        byte_of(x as int, 0) as int + byte_of(x as int, 1) as int * 0x100 + byte_of(x as int, 2)
            as int * 0x1_0000 + byte_of(x as int, 3) as int * 0x100_0000 == x,
{
    assert(x == (x % 0x100) + ((x / 0x100) % 0x100) * 0x100 + ((x / 0x1_0000) % 0x100) * 0x1_0000
        + ((x / 0x100_0000) % 0x100) * 0x100_0000) by (bit_vector);
    assert((x % 0x100) < 0x100 && ((x / 0x100) % 0x100) < 0x100 && ((x / 0x1_0000) % 0x100)
        < 0x100 && ((x / 0x100_0000) % 0x100) < 0x100) by (bit_vector);
}

proof fn lemma_bytes_of_u16(x: u16)
    ensures
        byte_of(x as int, 0) as int + byte_of(x as int, 1) as int * 0x100 == x,
{
    assert(x == (x % 0x100) + ((x / 0x100) % 0x100) * 0x100) by (bit_vector);
    assert((x % 0x100) < 0x100 && ((x / 0x100) % 0x100) < 0x100) by (bit_vector);
}

/// A header written with any values reads back as exactly those values:
/// each field of the `fmt ` chunk is the whole little-endian number there
/// (a 32-bit sample rate is read in full), the audio is the `data` chunk's
/// length from offset 44, and the file is the `RIFF` size plus eight.
pub proof fn law_a_plain_header_reads_back(
    riff_size: u32,
    format_tag: u16,
    channels: u16,
    sample_rate: u32,
    byte_rate: u32,
    block_align: u16,
    bits_per_sample: u16,
    audio_bytes: u32,
)
    ensures
        loop_header_of(
            plain_wave_header(
                riff_size,
                format_tag,
                channels,
                sample_rate,
                byte_rate,
                block_align,
                bits_per_sample,
                audio_bytes,
            ),
        ) == Ok::<LoopHeader, LoopError>(
            LoopHeader {
                format: Format { format_tag, channels, sample_rate, bits_per_sample },
                audio_bytes,
                audio_offset: 44,
                file_bytes: (riff_size + 8) as u64,
                meta: None,
            },
        ),
{
    let d = plain_wave_header(
        riff_size,
        format_tag,
        channels,
        sample_rate,
        byte_rate,
        block_align,
        bits_per_sample,
        audio_bytes,
    );
    lemma_bytes_of_u32(riff_size);
    lemma_bytes_of_u32(sample_rate);
    lemma_bytes_of_u32(audio_bytes);
    lemma_bytes_of_u16(format_tag);
    lemma_bytes_of_u16(channels);
    lemma_bytes_of_u16(bits_per_sample);
    assert(d.len() == 44);
    assert(d.subrange(0, 4) =~= riff_tag());
    assert(d.subrange(8, 12) =~= wave_tag());
    assert(d.subrange(12, 16) =~= fmt_tag());
    assert(d.subrange(36, 40) =~= data_tag());
    assert(d.subrange(36, 40) != fmt_tag()) by {
        assert(d.subrange(36, 40)[0] != fmt_tag()[0]);
    }
    assert(le32(d, 4) == riff_size);
    assert(le32(d, 16) == 16);
    assert(next_chunk(d, 12) == 36);
    let f = format_at(d, 20);
    assert(f == Format { format_tag, channels, sample_rate, bits_per_sample });
    assert(le32(d, 40) == audio_bytes);
    assert(scan_chunks(d, 36, Some(f), None) == Ok::<_, LoopError>(
        (Some(f), Some((audio_bytes, 44int)), None::<LoopMeta>),
    ));
    assert(scan_chunks(d, 12, None, None) == scan_chunks(d, 36, Some(f), None));
}

/// Reading a prefix `p` of `d`: where the walk over `p` reaches a `data`
/// chunk, the walk over `d` finds exactly the same things.
proof fn lemma_scan_prefix(
    d: Seq<u8>,
    p: Seq<u8>,
    at: int,
    format: Option<Format>,
    meta: Option<LoopMeta>,
)
    requires
        p.len() <= d.len(),
        p == d.take(p.len() as int),
    ensures
        scan_chunks(p, at, format, meta) matches Ok((_, Some(_), _)) ==> scan_chunks(
            p,
            at,
            format,
            meta,
        ) == scan_chunks(d, at, format, meta),
    decreases p.len() - at,
{
    if at < 0 || at + 8 > p.len() {
        return;
    }
    let size = le32(p, at + 4);
    let body = at + 8;
    assert(le32(p, at + 4) == le32(d, at + 4));
    assert(p.subrange(at, at + 4) =~= d.subrange(at, at + 4));
    let raw_next = at + 8 + size + size % 2;
    let np = next_chunk(p, at);
    let nd = next_chunk(d, at);
    let same_next = raw_next <= p.len();
    if same_next {
        assert(np == nd);
    } else {
        assert(np == p.len());
    }
    if tag_at(p, at, fmt_tag()) {
        assert(tag_at(d, at, fmt_tag()));
        if body + 16 <= p.len() {
            let f = format_at(p, body);
            assert(f == format_at(d, body)) by {
                assert(le16(p, body) == le16(d, body));
                assert(le16(p, body + 2) == le16(d, body + 2));
                assert(le32(p, body + 4) == le32(d, body + 4));
                assert(le16(p, body + 14) == le16(d, body + 14));
            }
            assert(scan_chunks(p, at, format, meta) == scan_chunks(p, np, Some(f), meta));
            assert(scan_chunks(d, at, format, meta) == scan_chunks(d, nd, Some(f), meta));
            if same_next {
                lemma_scan_prefix(d, p, np, Some(f), meta);
            } else {
                assert(scan_chunks(p, np, Some(f), meta) == Ok::<_, LoopError>((Some(f), None::<(u32, int)>, meta)));
            }
        }
    } else if tag_at(p, at, data_tag()) {
        assert(tag_at(d, at, data_tag()));
        assert(!tag_at(d, at, fmt_tag()));
    } else if tag_at(p, at, junk_tag()) {
        assert(tag_at(d, at, junk_tag()));
        assert(!tag_at(d, at, fmt_tag()));
        assert(!tag_at(d, at, data_tag()));
        if body + size <= p.len() {
            assert(p.subrange(body, body + size) =~= d.subrange(body, body + size));
            let m2 = meta_of(p.subrange(body, body + size));
            assert(scan_chunks(p, at, format, meta) == scan_chunks(p, np, format, m2));
            assert(scan_chunks(d, at, format, meta) == scan_chunks(d, nd, format, m2));
            if same_next {
                lemma_scan_prefix(d, p, np, format, m2);
            } else {
                assert(scan_chunks(p, np, format, m2) == Ok::<_, LoopError>((format, None::<(u32, int)>, m2)));
            }
        } else {
            assert(!same_next);
            assert(scan_chunks(p, np, format, None) == Ok::<_, LoopError>((format, None::<(u32, int)>, None::<LoopMeta>)));
        }
    } else {
        assert(!tag_at(d, at, fmt_tag()));
        assert(!tag_at(d, at, data_tag()));
        assert(!tag_at(d, at, junk_tag()));
        assert(scan_chunks(p, at, format, meta) == scan_chunks(p, np, format, meta));
        assert(scan_chunks(d, at, format, meta) == scan_chunks(d, nd, format, meta));
        if same_next {
            lemma_scan_prefix(d, p, np, format, meta);
        } else {
            assert(scan_chunks(p, np, format, meta) == Ok::<_, LoopError>((format, None::<(u32, int)>, meta)));
        }
    }
}

/// Once a prefix of a file reads as a header, reading more of the file gives
/// the same header: [`parse`] needs only a prefix, and a longer read never
/// changes an answer it has already given.
pub proof fn law_a_header_read_from_a_prefix_stands(d: Seq<u8>, n: int)
    requires
        0 <= n <= d.len(),
        loop_header_of(d.take(n)) is Ok,
    ensures
        loop_header_of(d) == loop_header_of(d.take(n)),
{
    let p = d.take(n);
    assert(p.subrange(0, 4) =~= d.subrange(0, 4));
    assert(p.subrange(8, 12) =~= d.subrange(8, 12));
    assert(le32(p, 4) == le32(d, 4));
    lemma_scan_prefix(d, p, 12, None, None);
}

/// A read too short to hold the whole header of a loop that parses is
/// reported as truncation (or, where the chunks it needs all fit, read as the
/// same header), never as a file that is not a loop.
pub proof fn law_a_short_read_is_truncation(d: Seq<u8>, n: int)
    requires
        0 <= n <= d.len(),
        n < HEADER_PREFIX,
        loop_header_of(d) is Ok,
    ensures
        loop_header_of(d.take(n)) == loop_header_of(d) || loop_header_of(d.take(n)) == Err::<
            LoopHeader,
            LoopError,
        >((LoopError::Truncated { got: n as usize })),
{
    let p = d.take(n);
    if n >= 12 {
        assert(p.subrange(0, 4) =~= d.subrange(0, 4));
        assert(p.subrange(8, 12) =~= d.subrange(8, 12));
        assert(le32(p, 4) == le32(d, 4));
        lemma_scan_prefix(d, p, 12, None, None);
        lemma_scan_error_is_truncation(p, 12, None, None);
    }
}

/// The only error the chunk walk gives is truncation of the bytes it walks.
proof fn lemma_scan_error_is_truncation(
    d: Seq<u8>,
    at: int,
    format: Option<Format>,
    meta: Option<LoopMeta>,
)
    ensures
        scan_chunks(d, at, format, meta) matches Err(e) ==> e == (LoopError::Truncated {
            got: d.len() as usize,
        }),
    decreases d.len() - at,
{
    if at < 0 || at + 8 > d.len() {
        return;
    }
    let size = le32(d, at + 4);
    let body = at + 8;
    if tag_at(d, at, fmt_tag()) {
        if body + 16 <= d.len() {
            lemma_scan_error_is_truncation(d, next_chunk(d, at), Some(format_at(d, body)), meta);
        }
    } else if tag_at(d, at, data_tag()) {
    } else if tag_at(d, at, junk_tag()) {
        let found = if body + size <= d.len() {
            meta_of(d.subrange(body, body + size))
        } else {
            None
        };
        lemma_scan_error_is_truncation(d, next_chunk(d, at), format, found);
    } else {
        lemma_scan_error_is_truncation(d, next_chunk(d, at), format, meta);
    }
}

/// The expected length is the nominal length rounded up to a whole block:
/// the least multiple of [`BLOCK_SAMPLES`] that is not below it. Both are
/// present exactly when the tempo is not zero.
pub proof fn law_expected_is_nominal_rounded_up_to_a_block(m: LoopMeta, sample_rate: u32)
    requires
        m.expected_fits(sample_rate),
    ensures
        m.nominal_of(sample_rate) is Some <==> m.tempo_bpm != 0,
        m.expected_of(sample_rate) is Some <==> m.tempo_bpm != 0,
        m.expected_of(sample_rate) matches Some(e) ==> {
            let n = m.nominal_of(sample_rate)->0;
            &&& e % (BLOCK_SAMPLES as u64) == 0
            &&& n <= e
            &&& e < n + BLOCK_SAMPLES
        },
{
    if m.tempo_bpm != 0 {
        let n = m.nominal_of(sample_rate)->0;
        assert(n <= u64::MAX - 2047);
        let q = (n + 2047) / 2048;
        assert(q * 2048 <= n + 2047);
        assert(q * 2048 > n - 1);
        assert((q * 2048) % 2048 == 0) by (nonlinear_arith);
    }
}

proof fn lemma_scan_audio_within(
    d: Seq<u8>,
    at: int,
    format: Option<Format>,
    meta: Option<LoopMeta>,
)
    requires
        0 <= at,
    ensures
        scan_chunks(d, at, format, meta) matches Ok((_, Some((_, off)), _)) ==> at + 8 <= off
            <= d.len(),
    decreases d.len() - at,
{
    if at + 8 > d.len() {
        return;
    }
    let size = le32(d, at + 4);
    let body = at + 8;
    if tag_at(d, at, fmt_tag()) {
        if body + 16 <= d.len() {
            lemma_scan_audio_within(d, next_chunk(d, at), Some(format_at(d, body)), meta);
        }
    } else if tag_at(d, at, data_tag()) {
    } else if tag_at(d, at, junk_tag()) {
        let found = if body + size <= d.len() {
            meta_of(d.subrange(body, body + size))
        } else {
            None
        };
        lemma_scan_audio_within(d, next_chunk(d, at), format, found);
    } else {
        lemma_scan_audio_within(d, next_chunk(d, at), format, meta);
    }
}

/// The audio a header reports starts within the bytes it was read from, past
/// the `RIFF` header and the `data` chunk's own eight bytes.
pub proof fn law_the_audio_starts_within_the_read(d: Seq<u8>)
    requires
        d.len() <= usize::MAX,
    ensures
        loop_header_of(d) matches Ok(h) ==> 20 <= h.audio_offset <= d.len(),
{
    if d.len() >= 12 {
        lemma_scan_audio_within(d, 12, None, None);
    }
}

} // verus!
