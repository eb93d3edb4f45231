//! Decoding of RIFF/WAVE byte blobs into raw PCM sample values.
//!
//! The decoder walks the RIFF chunk list, reads the format chunk, and
//! extracts the sample data: integer PCM of 8, 16, 24 or 32 bits per
//! sample as sign-corrected integers, or 32-bit float PCM as raw bit
//! patterns.  Scaling integer samples to real amplitudes is left to the
//! caller; all channels' samples are returned in interleaved order.

use vstd::prelude::*;

verus! {

/// A little-endian 16-bit value at `off`.
pub open spec fn le16(b: Seq<u8>, off: int) -> int {
    b[off] + 256 * b[off + 1]
}

/// A little-endian 32-bit value at `off`.
pub open spec fn le32(b: Seq<u8>, off: int) -> int {
    b[off] + 256 * b[off + 1] + 65536 * b[off + 2] + 16777216 * b[off + 3]
}

/// The blob starts with a RIFF header whose form type is WAVE.
pub open spec fn spec_is_riff_wave(b: Seq<u8>) -> bool {
    &&& b.len() >= 12
    &&& b[0] == 0x52u8 && b[1] == 0x49u8 && b[2] == 0x46u8 && b[3] == 0x46u8
    &&& b[8] == 0x57u8 && b[9] == 0x41u8 && b[10] == 0x56u8 && b[11] == 0x45u8
}

/// Offset of the header of the first chunk with the given four-byte id
/// at or after `off`, walking the RIFF chunk list with its padding rule.
pub open spec fn spec_find_chunk(b: Seq<u8>, off: int, c0: u8, c1: u8, c2: u8, c3: u8) -> Option<
    int,
>
    decreases b.len() - off,
{
    if off + 8 > b.len() {
        None
    } else if b[off] == c0 && b[off + 1] == c1 && b[off + 2] == c2 && b[off + 3] == c3 {
        Some(off)
    } else {
        let next = off + 8 + le32(b, off + 4) + (le32(b, off + 4) % 2);
        if next > b.len() {
            None
        } else {
            spec_find_chunk(b, next, c0, c1, c2, c3)
        }
    }
}

/// The format chunk header offset.
pub open spec fn spec_fmt(b: Seq<u8>) -> Option<int> {
    spec_find_chunk(b, 12, 0x66u8, 0x6du8, 0x74u8, 0x20u8)
}

/// The data chunk header offset.
pub open spec fn spec_data(b: Seq<u8>) -> Option<int> {
    spec_find_chunk(b, 12, 0x64u8, 0x61u8, 0x74u8, 0x61u8)
}

/// The format chunk exists and holds at least the 16 standard bytes.
pub open spec fn spec_fmt_ok(b: Seq<u8>) -> bool {
    &&& spec_fmt(b) is Some
    &&& le32(b, spec_fmt(b)->0 + 4) >= 16
    &&& spec_fmt(b)->0 + 24 <= b.len()
}

/// Fields of the format chunk.
pub open spec fn spec_format(b: Seq<u8>) -> int {
    le16(b, spec_fmt(b)->0 + 8)
}

pub open spec fn spec_channels(b: Seq<u8>) -> int {
    le16(b, spec_fmt(b)->0 + 10)
}

pub open spec fn spec_rate(b: Seq<u8>) -> int {
    le32(b, spec_fmt(b)->0 + 12)
}

pub open spec fn spec_bits(b: Seq<u8>) -> int {
    le16(b, spec_fmt(b)->0 + 22)
}

/// The declared sample format is one the decoder supports: integer PCM
/// of 8, 16, 24 or 32 bits, or 32-bit float PCM, with at least one
/// channel.
pub open spec fn spec_format_supported(b: Seq<u8>) -> bool {
    &&& spec_channels(b) >= 1
    &&& {
        ||| (spec_format(b) == 1 && (spec_bits(b) == 8 || spec_bits(b) == 16 || spec_bits(b)
            == 24 || spec_bits(b) == 32))
        ||| (spec_format(b) == 3 && spec_bits(b) == 32)
    }
}

/// Bytes per stored sample value.
pub open spec fn spec_bytes_per(b: Seq<u8>) -> int {
    spec_bits(b) / 8
}

/// The data chunk exists, lies inside the blob, and holds a whole number
/// of sample values.
pub open spec fn spec_data_ok(b: Seq<u8>) -> bool {
    &&& spec_data(b) is Some
    &&& spec_data(b)->0 + 8 + le32(b, spec_data(b)->0 + 4) <= b.len()
    &&& le32(b, spec_data(b)->0 + 4) % spec_bytes_per(b) == 0
}

/// The blob decodes without error.
pub open spec fn spec_wav_ok(b: Seq<u8>) -> bool {
    &&& spec_is_riff_wave(b)
    &&& spec_fmt_ok(b)
    &&& spec_format_supported(b)
    &&& spec_data_ok(b)
}

/// Number of stored sample values.
pub open spec fn spec_sample_count(b: Seq<u8>) -> int {
    le32(b, spec_data(b)->0 + 4) / spec_bytes_per(b)
}

/// The sign-corrected value of the sample at byte offset `off`: 8-bit
/// samples are stored excess-128, wider ones as little-endian two's
/// complement.
pub open spec fn spec_sample_value(b: Seq<u8>, off: int, bits: int) -> int {
    if bits == 8 {
        b[off] - 128
    } else if bits == 16 {
        if le16(b, off) >= 32768 {
            le16(b, off) - 65536
        } else {
            le16(b, off)
        }
    } else if bits == 24 {
        let raw = b[off] + 256 * b[off + 1] + 65536 * b[off + 2];
        if raw >= 8388608 {
            raw - 16777216
        } else {
            raw
        }
    } else {
        if le32(b, off) >= 2147483648 {
            le32(b, off) - 4294967296
        } else {
            le32(b, off)
        }
    }
}

/// Why a blob failed to decode.
#[derive(Clone, Copy, Debug, PartialEq, Eq, Structural)]
pub enum DecodeError {
    /// The blob does not start with a RIFF/WAVE header.
    NotRiffWave,
    /// No usable format chunk was found.
    MissingFormat,
    /// The declared sample format is not supported.
    UnsupportedFormat,
    /// No data chunk was found.
    MissingData,
    /// The data chunk overruns the blob or holds a partial sample.
    TruncatedData,
}

/// Decoded sample data.
#[derive(Clone, Debug)]
pub enum PcmData {
    /// Integer PCM sample values, sign-corrected.
    Int(Vec<i32>),
    /// 32-bit float PCM samples as raw bit patterns.
    FloatBits(Vec<u32>),
}

/// A decoded WAV blob: header fields and the raw samples of all
/// channels, interleaved.
#[derive(Clone, Debug)]
pub struct DecodedAudio {
    pub sample_rate: u32,
    pub channels: u16,
    pub bits_per_sample: u16,
    pub data: PcmData,
}

fn read_le16(bytes: &Vec<u8>, off: usize) -> (r: u16)
    requires
        off + 2 <= bytes@.len(),
    ensures
        r == le16(bytes@, off as int),
{
    let n: usize = bytes.len();
    proof {
        assert(off + 2 <= n);
    }
    (bytes[off] as u16) + 256 * (bytes[off + 1] as u16)
}

fn read_le32(bytes: &Vec<u8>, off: usize) -> (r: u32)
    requires
        off + 4 <= bytes@.len(),
    ensures
        r == le32(bytes@, off as int),
{
    let n: usize = bytes.len();
    proof {
        assert(off + 4 <= n);
    }
    (bytes[off] as u32) + 256 * (bytes[off + 1] as u32) + 65536 * (bytes[off + 2] as u32)
        + 16777216 * (bytes[off + 3] as u32)
}

/// Walk the chunk list for the chunk with the given id.
fn find_chunk(bytes: &Vec<u8>, c0: u8, c1: u8, c2: u8, c3: u8) -> (r: Option<usize>)
    requires
        bytes@.len() >= 12,
    ensures
        r is Some <==> spec_find_chunk(bytes@, 12, c0, c1, c2, c3) is Some,
        r is Some ==> r->0 == spec_find_chunk(bytes@, 12, c0, c1, c2, c3)->0 && r->0 + 8
            <= bytes@.len(),
{
    let ghost b = bytes@;
    let n: usize = bytes.len();
    let mut off: usize = 12;
    loop
        invariant
            b == bytes@,
            n == b.len(),
            12 <= off,
            spec_find_chunk(b, 12, c0, c1, c2, c3) == spec_find_chunk(b, off as int, c0, c1, c2, c3),
        decreases b.len() - off,
    {
        if off > n || n - off < 8 {
            return None;
        }
        if bytes[off] == c0 && bytes[off + 1] == c1 && bytes[off + 2] == c2 && bytes[off + 3]
            == c3 {
            return Some(off);
        }
        let sz: u32 = read_le32(bytes, off + 4);
        let pad: u128 = (sz as u128) % 2;
        let next: u128 = (off as u128) + 8 + (sz as u128) + pad;
        if next > (n as u128) {
            return None;
        }
        off = next as usize;
    }
}

/// Extract the integer sample values of the data chunk.
fn read_int_samples(bytes: &Vec<u8>, body: usize, count: usize, bits: u16) -> (r: Vec<i32>)
    requires
        bits == 8 || bits == 16 || bits == 24 || bits == 32,
        body + count * (bits as int / 8) <= bytes@.len(),
    ensures
        r@.len() == count,
        forall|k: int|
            0 <= k < count ==> r@[k] == spec_sample_value(
                bytes@,
                body + k * (bits as int / 8),
                bits as int,
            ),
{
    let n: usize = bytes.len();
    let step: usize = (bits / 8) as usize;
    let mut out: Vec<i32> = Vec::new();
    let mut k: usize = 0;
    while k < count
        invariant
            n == bytes@.len(),
            step == bits as int / 8,
            bits == 8 || bits == 16 || bits == 24 || bits == 32,
            body + count * (bits as int / 8) <= bytes@.len(),
            0 <= k <= count,
            out@.len() == k,
            forall|j: int|
                0 <= j < k ==> out@[j] == spec_sample_value(
                    bytes@,
                    body + j * (bits as int / 8),
                    bits as int,
                ),
        decreases count - k,
    {
        proof {
            vstd::arithmetic::mul::lemma_mul_inequality(k as int + 1, count as int, step as int);
            assert((k + 1) * step == k * step + step) by (nonlinear_arith);
            vstd::arithmetic::mul::lemma_mul_nonnegative(k as int, step as int);
        }
        let o: usize = body + k * step;
        let v: i32 = if bits == 8 {
            (bytes[o] as i32) - 128
        } else if bits == 16 {
            let raw: u32 = (bytes[o] as u32) + 256 * (bytes[o + 1] as u32);
            if raw >= 32768 {
                (raw as i32) - 65536
            } else {
                raw as i32
            }
        } else if bits == 24 {
            let raw: u32 = (bytes[o] as u32) + 256 * (bytes[o + 1] as u32) + 65536 * (bytes[o
                + 2] as u32);
            if raw >= 8388608 {
                (raw as i32) - 16777216
            } else {
                raw as i32
            }
        } else {
            let raw: u32 = (bytes[o] as u32) + 256 * (bytes[o + 1] as u32) + 65536 * (bytes[o
                + 2] as u32) + 16777216 * (bytes[o + 3] as u32);
            if raw >= 2147483648 {
                (((raw as i64) - 4294967296i64) as i32)
            } else {
                raw as i32
            }
        };
        out.push(v);
        k += 1;
    }
    out
}

/// Extract the raw bit patterns of 32-bit float samples.
fn read_float_samples(bytes: &Vec<u8>, body: usize, count: usize) -> (r: Vec<u32>)
    requires
        body + count * 4 <= bytes@.len(),
    ensures
        r@.len() == count,
        forall|k: int| 0 <= k < count ==> r@[k] == le32(bytes@, body + k * 4),
{
    let n: usize = bytes.len();
    let mut out: Vec<u32> = Vec::new();
    let mut k: usize = 0;
    while k < count
        invariant
            n == bytes@.len(),
            body + count * 4 <= bytes@.len(),
            0 <= k <= count,
            out@.len() == k,
            forall|j: int| 0 <= j < k ==> out@[j] == le32(bytes@, body + j * 4),
        decreases count - k,
    {
        proof {
            vstd::arithmetic::mul::lemma_mul_inequality(k as int + 1, count as int, 4);
            assert((k + 1) * 4 == k * 4 + 4) by (nonlinear_arith);
        }
        let o: usize = body + k * 4;
        let v = read_le32(bytes, o);
        out.push(v);
        k += 1;
    }
    out
}

/// Decode a RIFF/WAVE blob: verify the header, locate the format and
/// data chunks, and extract the header fields and every stored sample.
/// Each failure names what was malformed; decoding succeeds exactly on
/// well-formed blobs of a supported sample format.
pub fn decode_audio(bytes: &Vec<u8>) -> (r: Result<DecodedAudio, DecodeError>)
    ensures
        r is Ok <==> spec_wav_ok(bytes@),
        r is Err && r->Err_0 == DecodeError::NotRiffWave <==> !spec_is_riff_wave(bytes@),
        r is Err && r->Err_0 == DecodeError::MissingFormat <==> spec_is_riff_wave(bytes@)
            && !spec_fmt_ok(bytes@),
        r is Err && r->Err_0 == DecodeError::UnsupportedFormat <==> spec_is_riff_wave(bytes@)
            && spec_fmt_ok(bytes@) && !spec_format_supported(bytes@),
        r is Err && r->Err_0 == DecodeError::MissingData <==> spec_is_riff_wave(bytes@)
            && spec_fmt_ok(bytes@) && spec_format_supported(bytes@) && !(spec_data(bytes@)
            is Some),
        r is Err && r->Err_0 == DecodeError::TruncatedData <==> spec_is_riff_wave(bytes@)
            && spec_fmt_ok(bytes@) && spec_format_supported(bytes@) && spec_data(bytes@) is Some
            && !spec_data_ok(bytes@),
        r is Ok ==> {
            let d = r->Ok_0;
            &&& d.sample_rate == spec_rate(bytes@)
            &&& d.channels == spec_channels(bytes@)
            &&& d.bits_per_sample == spec_bits(bytes@)
            &&& (d.data is Int <==> spec_format(bytes@) == 1)
            &&& (d.data is FloatBits <==> spec_format(bytes@) == 3)
            &&& (d.data matches PcmData::Int(v) ==> v@.len() == spec_sample_count(bytes@)
                && forall|k: int|
                0 <= k < v@.len() ==> v@[k] == spec_sample_value(
                    bytes@,
                    spec_data(bytes@)->0 + 8 + k * spec_bytes_per(bytes@),
                    spec_bits(bytes@),
                ))
            &&& (d.data matches PcmData::FloatBits(v) ==> v@.len() == spec_sample_count(bytes@)
                && forall|k: int|
                0 <= k < v@.len() ==> v@[k] == le32(
                    bytes@,
                    spec_data(bytes@)->0 + 8 + k * 4,
                ))
        },
{
    let ghost b = bytes@;
    let n = bytes.len();
    if n < 12 || !(bytes[0] == 0x52 && bytes[1] == 0x49 && bytes[2] == 0x46 && bytes[3] == 0x46
        && bytes[8] == 0x57 && bytes[9] == 0x41 && bytes[10] == 0x56 && bytes[11] == 0x45) {
        return Err(DecodeError::NotRiffWave);
    }
    let fmt = find_chunk(bytes, 0x66, 0x6d, 0x74, 0x20);
    let h: usize = match fmt {
        Some(h) => h,
        None => {
            return Err(DecodeError::MissingFormat);
        },
    };
    let fmt_size = read_le32(bytes, h + 4);
    if fmt_size < 16 || n - h < 24 {
        return Err(DecodeError::MissingFormat);
    }
    let format = read_le16(bytes, h + 8);
    let channels = read_le16(bytes, h + 10);
    let rate = read_le32(bytes, h + 12);
    let bits = read_le16(bytes, h + 22);
    let supported = channels >= 1 && ((format == 1 && (bits == 8 || bits == 16 || bits == 24
        || bits == 32)) || (format == 3 && bits == 32));
    if !supported {
        return Err(DecodeError::UnsupportedFormat);
    }
    let data = find_chunk(bytes, 0x64, 0x61, 0x74, 0x61);
    let d: usize = match data {
        Some(d) => d,
        None => {
            return Err(DecodeError::MissingData);
        },
    };
    let data_size = read_le32(bytes, d + 4);
    let step: usize = (bits / 8) as usize;
    if (d as u128) + 8 + (data_size as u128) > (n as u128) || (data_size as usize) % step != 0 {
        return Err(DecodeError::TruncatedData);
    }
    let body: usize = d + 8;
    let count: usize = (data_size as usize) / step;
    proof {
        assert(count * step == data_size) by {
            vstd::arithmetic::div_mod::lemma_fundamental_div_mod(data_size as int, step as int);
            assert((data_size as int / step as int) * step == step * (data_size as int
                / step as int)) by (nonlinear_arith);
        }
    }
    let pcm = if format == 1 {
        PcmData::Int(read_int_samples(bytes, body, count, bits))
    } else {
        PcmData::FloatBits(read_float_samples(bytes, body, count))
    };
    Ok(
        DecodedAudio {
            sample_rate: rate,
            channels,
            bits_per_sample: bits,
            data: pcm,
        },
    )
}

} // verus!
