//! Decoding of 16-bit PCM WAV (RIFF) files from raw bytes: header checks,
//! location of the `fmt ` and `data` chunks, and de-interleaving of the
//! sample stream into per-channel vectors.
//!
//! The decoder works on bytes already read from wherever the recording came
//! from; opening files is the caller's business.

use vstd::prelude::*;
use crate::declarations::INCOMPATIBLE_FILE_ERROR;

verus! {

/// Metadata and per-channel samples of a decoded recording.  The duration in
/// seconds is the exact rational `total_frames / sample_rate`.
pub struct WavInfo {
    pub sample_rate: u32,
    pub channels: u16,
    pub total_frames: u32,
    pub left_channel_samples: Vec<i16>,
    pub right_channel_samples: Vec<i16>,
}

impl WavInfo {
    /// Structural soundness: channel count is 1 or 2, and the channel
    /// vectors agree with the frame count.
    pub open spec fn wf(&self) -> bool {
        &&& self.channels == 1 || self.channels == 2
        &&& self.total_frames < 0x80000000
        &&& self.channels == 1 ==> self.left_channel_samples@.len() == self.total_frames
            && self.right_channel_samples@.len() == 0
        &&& self.channels == 2 ==> self.right_channel_samples@.len() == self.total_frames && (
        self.left_channel_samples@.len() == self.total_frames
            || self.left_channel_samples@.len() == self.total_frames + 1)
    }
}

/// The 16-bit little-endian value at offset `i`.
pub open spec fn le16(b: Seq<u8>, i: int) -> int {
    b[i] + 256 * b[i + 1]
}

/// The 32-bit little-endian value at offset `i`.
pub open spec fn le32(b: Seq<u8>, i: int) -> int {
    b[i] + 256 * b[i + 1] + 65536 * b[i + 2] + 16777216 * b[i + 3]
}

/// The signed 16-bit sample encoded little-endian at offset `off`.
pub open spec fn sample_val(b: Seq<u8>, off: int) -> int {
    let v = le16(b, off);
    if v < 32768 {
        v
    } else {
        v - 65536
    }
}

/// Whether the four bytes at `pos` are the chunk id `id`.
pub open spec fn id_matches(b: Seq<u8>, pos: int, id: (u8, u8, u8, u8)) -> bool {
    b[pos] == id.0 && b[pos + 1] == id.1 && b[pos + 2] == id.2 && b[pos + 3] == id.3
}

/// Scans the RIFF chunk list from `pos` for the chunk with the given id.
/// Yields the offset of the chunk's data and its size; the data must lie
/// within the buffer.  Chunks are word-aligned: an odd-sized chunk is
/// followed by one pad byte.
pub open spec fn find_chunk(b: Seq<u8>, pos: int, id: (u8, u8, u8, u8)) -> Option<(int, int)>
    decreases b.len() - pos,
{
    if pos + 8 > b.len() {
        None
    } else {
        let size = le32(b, pos + 4);
        if id_matches(b, pos, id) {
            if pos + 8 + size <= b.len() {
                Some((pos + 8, size))
            } else {
                None
            }
        } else {
            let next = pos + 8 + size + (size % 2);
            if next > b.len() {
                None
            } else {
                find_chunk(b, next, id)
            }
        }
    }
}

/// The id of the `fmt ` chunk.
pub open spec fn fmt_id() -> (u8, u8, u8, u8) {
    (0x66u8, 0x6du8, 0x74u8, 0x20u8)
}

/// The id of the `data` chunk.
pub open spec fn data_id() -> (u8, u8, u8, u8) {
    (0x64u8, 0x61u8, 0x74u8, 0x61u8)
}

/// The buffer starts with a RIFF header declaring a WAVE form.
pub open spec fn riff_header_ok(b: Seq<u8>) -> bool {
    &&& b.len() >= 12
    &&& b[0] == 0x52u8 && b[1] == 0x49u8 && b[2] == 0x46u8 && b[3] == 0x46u8
    &&& b[8] == 0x57u8 && b[9] == 0x41u8 && b[10] == 0x56u8 && b[11] == 0x45u8
}

/// Offset and size of the `fmt ` chunk's data.
pub open spec fn fmt_loc(b: Seq<u8>) -> (int, int) {
    find_chunk(b, 12, fmt_id()).unwrap()
}

/// Where the chunk after `fmt ` starts.
pub open spec fn after_fmt(b: Seq<u8>) -> int {
    fmt_loc(b).0 + fmt_loc(b).1 + (fmt_loc(b).1 % 2)
}

/// Offset and size of the `data` chunk's data (searched after `fmt `).
pub open spec fn data_loc(b: Seq<u8>) -> (int, int) {
    find_chunk(b, after_fmt(b), data_id()).unwrap()
}

/// The bytes decode as audio this engine accepts: a RIFF/WAVE form whose
/// `fmt ` chunk declares integer PCM, 1 or 2 channels and 16 bits per
/// sample, with a complete `data` chunk after it.
pub open spec fn wav_compatible(b: Seq<u8>) -> bool {
    &&& riff_header_ok(b)
    &&& find_chunk(b, 12, fmt_id()) is Some
    &&& fmt_loc(b).1 >= 16
    &&& le16(b, fmt_loc(b).0) == 1
    &&& (le16(b, fmt_loc(b).0 + 2) == 1 || le16(b, fmt_loc(b).0 + 2) == 2)
    &&& le16(b, fmt_loc(b).0 + 14) == 16
    &&& find_chunk(b, after_fmt(b), data_id()) is Some
}

/// Declared channel count.
pub open spec fn wav_channels(b: Seq<u8>) -> int {
    le16(b, fmt_loc(b).0 + 2)
}

/// Declared sample rate in Hz.
pub open spec fn wav_sample_rate(b: Seq<u8>) -> int {
    le32(b, fmt_loc(b).0 + 4)
}

/// Number of 16-bit samples in the `data` chunk (all channels interleaved).
pub open spec fn wav_num_samples(b: Seq<u8>) -> int {
    data_loc(b).1 / 2
}

/// Samples per channel.
pub open spec fn wav_total_frames(b: Seq<u8>) -> int {
    wav_num_samples(b) / wav_channels(b)
}

/// The left channel: every sample for mono, the even-indexed samples of the
/// interleaved stream for stereo.
pub open spec fn wav_left_spec(b: Seq<u8>) -> Seq<i16> {
    let off = data_loc(b).0;
    let n = wav_num_samples(b);
    if wav_channels(b) == 1 {
        Seq::new(n as nat, |i: int| sample_val(b, off + 2 * i) as i16)
    } else {
        Seq::new(((n + 1) / 2) as nat, |i: int| sample_val(b, off + 4 * i) as i16)
    }
}

/// The right channel: empty for mono, the odd-indexed samples for stereo.
pub open spec fn wav_right_spec(b: Seq<u8>) -> Seq<i16> {
    let off = data_loc(b).0;
    let n = wav_num_samples(b);
    if wav_channels(b) == 1 {
        Seq::empty()
    } else {
        Seq::new((n / 2) as nat, |i: int| sample_val(b, off + 4 * i + 2) as i16)
    }
}

/// Reads a 16-bit little-endian value.
fn read_le16(b: &Vec<u8>, i: usize) -> (v: u16)
    requires
        i + 2 <= b@.len(),
    ensures
        v == le16(b@, i as int),
{
    // Reading the length pins the buffer's size into the usize range.
    let _len: usize = b.len();
    (b[i] as u16) + 256 * (b[i + 1] as u16)
}

/// Reads a 32-bit little-endian value.
fn read_le32(b: &Vec<u8>, i: usize) -> (v: u32)
    requires
        i + 4 <= b@.len(),
    ensures
        v == le32(b@, i as int),
{
    // Reading the length pins the buffer's size into the usize range.
    let _len: usize = b.len();
    (b[i] as u32) + 256 * (b[i + 1] as u32) + 65536 * (b[i + 2] as u32) + 16777216 * (b[i + 3]
        as u32)
}

/// Reads the signed 16-bit sample at offset `off`.
fn read_sample(b: &Vec<u8>, off: usize) -> (s: i16)
    requires
        off + 2 <= b@.len(),
    ensures
        s == sample_val(b@, off as int),
{
    let v: u16 = read_le16(b, off);
    let s32: i32 = if v < 32768 {
        v as i32
    } else {
        v as i32 - 65536
    };
    s32 as i16
}

/// Scans the chunk list from `start` for the chunk with id `id`.
fn find_chunk_exec(b: &Vec<u8>, start: usize, id: (u8, u8, u8, u8)) -> (r: Option<(usize, usize)>)
    requires
        start <= b@.len(),
    ensures
        r matches Some(p) ==> find_chunk(b@, start as int, id) == Some((p.0 as int, p.1 as int))
            && p.0 + p.1 <= b@.len() && p.1 <= 4294967295,
        r is None ==> find_chunk(b@, start as int, id) is None,
{
    let len: usize = b.len();
    let mut pos: usize = start;
    while len - pos >= 8
        invariant
            pos <= len,
            len == b@.len(),
            len <= usize::MAX,
            find_chunk(b@, start as int, id) == find_chunk(b@, pos as int, id),
        decreases len - pos,
    {
        let size32: u32 = read_le32(b, pos + 4);
        let size: usize = size32 as usize;
        let is_id: bool = b[pos] == id.0 && b[pos + 1] == id.1 && b[pos + 2] == id.2 && b[pos + 3]
            == id.3;
        let rem: usize = len - (pos + 8);
        if is_id {
            if size <= rem {
                return Some((pos + 8, size));
            } else {
                return None;
            }
        } else {
            let pad: usize = size % 2;
            if size > rem || pad > rem - size {
                return None;
            }
            pos = pos + 8 + size + pad;
        }
    }
    None
}

/// Decodes a 16-bit PCM WAV file from its bytes.  Returns metadata and the
/// de-interleaved channel samples, or `INCOMPATIBLE_FILE_ERROR` for anything
/// that is not a complete 16-bit PCM RIFF/WAVE file with 1 or 2 channels.
pub fn get_wav_info(bytes: &Vec<u8>) -> (r: Result<WavInfo, u8>)
    ensures
        r is Ok <==> wav_compatible(bytes@),
        r is Err ==> r->Err_0 == INCOMPATIBLE_FILE_ERROR,
        r is Ok ==> ({
            let w = r->Ok_0;
            &&& w.sample_rate == wav_sample_rate(bytes@)
            &&& w.channels == wav_channels(bytes@)
            &&& w.total_frames == wav_total_frames(bytes@)
            &&& w.left_channel_samples@ == wav_left_spec(bytes@)
            &&& w.right_channel_samples@ == wav_right_spec(bytes@)
            &&& w.wf()
        }),
{
    let len: usize = bytes.len();
    if len < 12 {
        return Err(INCOMPATIBLE_FILE_ERROR);
    }
    if !(bytes[0] == 0x52 && bytes[1] == 0x49 && bytes[2] == 0x46 && bytes[3] == 0x46 && bytes[8]
        == 0x57 && bytes[9] == 0x41 && bytes[10] == 0x56 && bytes[11] == 0x45) {
        return Err(INCOMPATIBLE_FILE_ERROR);
    }
    let fmt: (usize, usize) = match find_chunk_exec(bytes, 12, (0x66, 0x6d, 0x74, 0x20)) {
        Some(f) => f,
        None => {
            return Err(INCOMPATIBLE_FILE_ERROR);
        },
    };
    let fo: usize = fmt.0;
    let fs: usize = fmt.1;
    if fs < 16 {
        return Err(INCOMPATIBLE_FILE_ERROR);
    }
    let audio_format: u16 = read_le16(bytes, fo);
    if audio_format != 1 {
        return Err(INCOMPATIBLE_FILE_ERROR);
    }
    let channels: u16 = read_le16(bytes, fo + 2);
    if channels != 1 && channels != 2 {
        return Err(INCOMPATIBLE_FILE_ERROR);
    }
    let sample_rate: u32 = read_le32(bytes, fo + 4);
    let bits: u16 = read_le16(bytes, fo + 14);
    if bits != 16 {
        return Err(INCOMPATIBLE_FILE_ERROR);
    }
    let pad: usize = fs % 2;
    if pad > len - (fo + fs) {
        // The pad byte of an odd-sized fmt chunk would fall past the end, so
        // no data chunk can follow.
        proof {
            assert(find_chunk(bytes@, after_fmt(bytes@), data_id()) is None);
        }
        return Err(INCOMPATIBLE_FILE_ERROR);
    }
    let data: (usize, usize) = match find_chunk_exec(
        bytes,
        fo + fs + pad,
        (0x64, 0x61, 0x74, 0x61),
    ) {
        Some(d) => d,
        None => {
            return Err(INCOMPATIBLE_FILE_ERROR);
        },
    };
    let doff: usize = data.0;
    let dsize: usize = data.1;
    let n: usize = dsize / 2;
    proof {
        assert(n as int == wav_num_samples(bytes@));
        assert(doff as int == data_loc(bytes@).0);
        vstd::arithmetic::div_mod::lemma_div_nonincreasing(dsize as int, 2);
    }
    let mut left: Vec<i16> = Vec::new();
    let mut right: Vec<i16> = Vec::new();
    if channels == 1 {
        let mut i: usize = 0;
        while i < n
            invariant
                i <= n,
                2 * n <= dsize,
                dsize <= 4294967295,
                doff + dsize <= bytes@.len(),
                bytes@.len() <= usize::MAX,
                left@.len() == i as int,
                forall|q: int|
                    0 <= q < i as int ==> left@[q] == sample_val(bytes@, doff + 2 * q) as i16,
            decreases n - i,
        {
            left.push(read_sample(bytes, doff + 2 * i));
            i = i + 1;
        }
        proof {
            assert(left@ =~= wav_left_spec(bytes@));
            assert(right@ =~= wav_right_spec(bytes@));
        }
        let total: u32 = (n as u32);
        proof {
            vstd::arithmetic::div_mod::lemma_div_by_self(1);
            assert(wav_total_frames(bytes@) == n as int) by {
                vstd::arithmetic::div_mod::lemma_fundamental_div_mod_converse_div(
                    n as int,
                    1,
                    n as int,
                    0,
                );
            }
        }
        return Ok(
            WavInfo {
                sample_rate,
                channels,
                total_frames: total,
                left_channel_samples: left,
                right_channel_samples: right,
            },
        );
    }
    // Stereo: even-indexed samples go left, odd-indexed right.
    let mut i: usize = 0;
    while i < n
        invariant
            i <= n,
            2 * n <= dsize,
            dsize <= 4294967295,
            doff + dsize <= bytes@.len(),
            bytes@.len() <= usize::MAX,
            left@.len() == (i as int + 1) / 2,
            right@.len() == i as int / 2,
            forall|q: int|
                0 <= q < left@.len() ==> left@[q] == sample_val(bytes@, doff + 4 * q) as i16,
            forall|q: int|
                0 <= q < right@.len() ==> right@[q] == sample_val(bytes@, doff + 4 * q + 2) as i16,
        decreases n - i,
    {
        let s: i16 = read_sample(bytes, doff + 2 * i);
        if i % 2 == 0 {
            proof {
                vstd::arithmetic::div_mod::lemma_fundamental_div_mod(i as int, 2);
                assert(2 * i as int == 4 * (i as int / 2));
            }
            left.push(s);
            proof {
                vstd::arithmetic::div_mod::lemma_fundamental_div_mod(i as int + 1, 2);
            }
        } else {
            proof {
                vstd::arithmetic::div_mod::lemma_fundamental_div_mod(i as int, 2);
                assert(2 * i as int == 4 * (i as int / 2) + 2);
            }
            right.push(s);
            proof {
                vstd::arithmetic::div_mod::lemma_fundamental_div_mod(i as int + 1, 2);
            }
        }
        i = i + 1;
    }
    proof {
        assert(left@ =~= wav_left_spec(bytes@));
        assert(right@ =~= wav_right_spec(bytes@));
    }
    let total: u32 = (n / 2) as u32;
    proof {
        assert(wav_total_frames(bytes@) == n as int / 2);
        vstd::arithmetic::div_mod::lemma_div_nonincreasing(n as int, 2);
    }
    Ok(
        WavInfo {
            sample_rate,
            channels,
            total_frames: total,
            left_channel_samples: left,
            right_channel_samples: right,
        },
    )
}

} // verus!
