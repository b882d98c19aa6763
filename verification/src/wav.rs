//! Encoding 16-bit mono PCM as a RIFF/WAVE byte stream.
use vstd::prelude::*;
use crate::TARGET_SAMPLE_RATE;

verus! {

/// Length in bytes of the RIFF/WAVE header that precedes the sample data.
pub const WAV_HEADER_LEN: usize = 44;

/// The little-endian bytes of a 16-bit value.
pub open spec fn le_u16(x: u16) -> Seq<u8> {
    seq![(x % 256) as u8, (x / 256) as u8]
}

/// The little-endian bytes of a 32-bit value.
pub open spec fn le_u32(x: u32) -> Seq<u8> {
    seq![
        (x % 256) as u8,
        ((x / 256) % 256) as u8,
        ((x / 65536) % 256) as u8,
        (x / 16777216) as u8,
    ]
}

/// The 16-bit value whose little-endian bytes are `lo`, `hi`.
pub open spec fn read_le_u16(lo: u8, hi: u8) -> u16 {
    (lo as int + 256 * hi as int) as u16
}

/// The 32-bit value whose little-endian bytes are `b[at..at + 4]`.
pub open spec fn read_le_u32(b: Seq<u8>, at: int) -> u32 {
    (b[at] as int + 256 * b[at + 1] as int + 65536 * b[at + 2] as int + 16777216 * b[at
        + 3] as int) as u32
}

/// ASCII `RIFF`.
pub open spec fn riff_tag() -> Seq<u8> {
    seq![0x52u8, 0x49u8, 0x46u8, 0x46u8]
}

/// ASCII `WAVE`.
pub open spec fn wave_tag() -> Seq<u8> {
    seq![0x57u8, 0x41u8, 0x56u8, 0x45u8]
}

/// ASCII `fmt ` (with a trailing space).
pub open spec fn fmt_tag() -> Seq<u8> {
    seq![0x66u8, 0x6du8, 0x74u8, 0x20u8]
}

/// ASCII `data`.
pub open spec fn data_tag() -> Seq<u8> {
    seq![0x64u8, 0x61u8, 0x74u8, 0x61u8]
}

/// Number of bytes of sample data that the header announces for `n` samples:
/// two bytes per sample, kept to 32 bits as the header field is.
pub open spec fn data_size_field(n: nat) -> u32 {
    (2 * n) as u32
}

/// The 44-byte header of a 16 kHz, mono, 16-bit PCM WAVE file whose data
/// chunk holds `data_size` bytes.
pub open spec fn wav_header(data_size: u32) -> Seq<u8> {
    riff_tag() + le_u32((36 + data_size) as u32) + wave_tag() + fmt_tag() + le_u32(16) + le_u16(1)
        + le_u16(1) + le_u32(16000) + le_u32(32000) + le_u16(2) + le_u16(16) + data_tag() + le_u32(
        data_size,
    )
}

/// The PCM encoding of `samples`: each sample as two's-complement 16-bit
/// little-endian bytes, in order.
pub open spec fn pcm16_le(samples: Seq<i16>) -> Seq<u8>
    decreases samples.len(),
{
    if samples.len() == 0 {
        Seq::empty()
    } else {
        pcm16_le(samples.drop_last()) + le_u16(samples.last() as u16)
    }
}

proof fn lemma_pcm16_le_len(samples: Seq<i16>)
    ensures
        pcm16_le(samples).len() == 2 * samples.len(),
    decreases samples.len(),
{
    if samples.len() > 0 {
        lemma_pcm16_le_len(samples.drop_last());
    }
}

/// Byte `2 * i` and `2 * i + 1` of the PCM encoding are the low and high
/// bytes of sample `i`.
pub proof fn lemma_pcm16_le_index(samples: Seq<i16>, i: int)
    requires
        0 <= i < samples.len(),
    ensures
        pcm16_le(samples).len() == 2 * samples.len(),
        pcm16_le(samples)[2 * i] == le_u16(samples[i] as u16)[0],
        pcm16_le(samples)[2 * i + 1] == le_u16(samples[i] as u16)[1],
    decreases samples.len(),
{
    lemma_pcm16_le_len(samples);
    let init = samples.drop_last();
    lemma_pcm16_le_len(init);
    if i < samples.len() - 1 {
        lemma_pcm16_le_index(init, i);
    }
}

/// Appends the little-endian bytes of `x`.
fn push_u16(out: &mut Vec<u8>, x: u16)
    ensures
        final(out)@ == old(out)@ + le_u16(x),
{
    out.push((x % 256) as u8);
    out.push((x / 256) as u8);
    assert(out@ =~= old(out)@ + le_u16(x));
}

/// Appends the little-endian bytes of `x`.
fn push_u32(out: &mut Vec<u8>, x: u32)
    ensures
        final(out)@ == old(out)@ + le_u32(x),
{
    out.push((x % 256) as u8);
    out.push(((x / 256) % 256) as u8);
    out.push(((x / 65536) % 256) as u8);
    out.push((x / 16777216) as u8);
    assert(out@ =~= old(out)@ + le_u32(x));
}

/// Appends a four-byte chunk tag.
fn push_tag(out: &mut Vec<u8>, a: u8, b: u8, c: u8, d: u8)
    ensures
        final(out)@ == old(out)@ + seq![a, b, c, d],
{
    out.push(a);
    out.push(b);
    out.push(c);
    out.push(d);
    assert(out@ =~= old(out)@ + seq![a, b, c, d]);
}

/// Appends the header of a WAVE file whose data chunk holds `data_size` bytes.
fn push_wav_header(wav: &mut Vec<u8>, data_size: u32)
    requires
        data_size <= u32::MAX - 36,
    ensures
        final(wav)@ == old(wav)@ + wav_header(data_size),
{
    let sample_rate: u32 = TARGET_SAMPLE_RATE;
    let channels: u16 = 1;
    let bits_per_sample: u16 = 16;
    let bytes_per_sample: u16 = bits_per_sample / 8;
    let file_size: u32 = 36 + data_size;
    assert(sample_rate * channels * bytes_per_sample == 32000) by (nonlinear_arith)
        requires
            sample_rate == 16000,
            channels == 1,
            bytes_per_sample == 2,
    ;
    let byte_rate: u32 = sample_rate * channels as u32 * bytes_per_sample as u32;
    let block_align: u16 = channels * bytes_per_sample;
    let ghost start = wav@;
    let mut h: Vec<u8> = Vec::new();
    push_tag(&mut h, 0x52, 0x49, 0x46, 0x46);
    assert(h@ =~= riff_tag());
    push_u32(&mut h, file_size);
    push_tag(&mut h, 0x57, 0x41, 0x56, 0x45);
    push_tag(&mut h, 0x66, 0x6d, 0x74, 0x20);
    push_u32(&mut h, 16);
    push_u16(&mut h, 1);
    push_u16(&mut h, channels);
    push_u32(&mut h, sample_rate);
    push_u32(&mut h, byte_rate);
    push_u16(&mut h, block_align);
    push_u16(&mut h, bits_per_sample);
    push_tag(&mut h, 0x64, 0x61, 0x74, 0x61);
    push_u32(&mut h, data_size);
    assert(h@ == wav_header(data_size));
    let mut i: usize = 0;
    while i < h.len()
        invariant
            i <= h@.len(),
            wav@ == start + h@.subrange(0, i as int),
        decreases h@.len() - i,
    {
        wav.push(h[i]);
        assert(h@.subrange(0, i as int + 1) =~= h@.subrange(0, i as int).push(h@[i as int]));
        i = i + 1;
    }
    assert(h@.subrange(0, h@.len() as int) =~= h@);
}

/// Encodes mono 16-bit samples at the target sample rate as a WAVE file.
///
/// The result is the 44-byte header followed by every sample, in order, as
/// two little-endian bytes. The header's data-size field is twice the number
/// of samples, kept to 32 bits, and the RIFF size field is 36 more than it.
pub fn create_wav(samples: &[i16]) -> (wav: Vec<u8>)
    requires
        2 * samples@.len() <= usize::MAX,
        data_size_field(samples@.len()) <= u32::MAX - 36,
    ensures
        wav@ == wav_header(data_size_field(samples@.len())) + pcm16_le(samples@),
        wav@.len() == WAV_HEADER_LEN + 2 * samples@.len(),
{
    let byte_len: usize = samples.len() * 2;
    #[verifier::truncate]
    let data_size: u32 = byte_len as u32;
    assert(data_size == data_size_field(samples@.len()));
    let mut wav: Vec<u8> = Vec::new();
    push_wav_header(&mut wav, data_size);
    assert(wav@ =~= wav_header(data_size));
    let ghost header = wav@;
    let mut i: usize = 0;
    while i < samples.len()
        invariant
            i <= samples@.len(),
            wav@ == header + pcm16_le(samples@.subrange(0, i as int)),
        decreases samples@.len() - i,
    {
        let ghost before = wav@;
        push_u16(&mut wav, samples[i] as u16);
        proof {
            let s = samples@.subrange(0, i as int + 1);
            assert(s.drop_last() =~= samples@.subrange(0, i as int));
            assert(s.last() == samples@[i as int]);
        }
        i = i + 1;
    }
    assert(samples@.subrange(0, samples@.len() as int) =~= samples@);
    proof {
        lemma_pcm16_le_len(samples@);
    }
    wav
}

/// Reading a 16-bit little-endian value back from its two bytes, as a
/// two's-complement sample, gives the sample that was written.
pub proof fn lemma_sample_bytes_read_back(x: i16)
    ensures
        read_le_u16(le_u16(x as u16)[0], le_u16(x as u16)[1]) as i16 == x,
{
    let u = x as u16;
    assert(u as int == 256 * (u as int / 256) + u as int % 256);
    assert(read_le_u16(le_u16(u)[0], le_u16(u)[1]) == u);
    assert((x as u16) as i16 == x) by (bit_vector);
}

/// Reading a 32-bit little-endian value back from its four bytes gives the
/// value that was written.
pub proof fn lemma_u32_bytes_read_back(x: u32, prefix: Seq<u8>, suffix: Seq<u8>)
    ensures
        read_le_u32(prefix + le_u32(x) + suffix, prefix.len() as int) == x,
{
    let b = prefix + le_u32(x) + suffix;
    let p = prefix.len() as int;
    assert(b[p] == le_u32(x)[0]);
    assert(b[p + 1] == le_u32(x)[1]);
    assert(b[p + 2] == le_u32(x)[2]);
    assert(b[p + 3] == le_u32(x)[3]);
    let xi = x as int;
    assert(xi == (xi % 256) + 256 * ((xi / 256) % 256) + 65536 * ((xi / 65536) % 256) + 16777216 * (
    xi / 16777216));
}

/// Every sample of a file made by `create_wav` reads back, as two
/// little-endian bytes at offset `44 + 2 * i`, as the sample that was encoded.
pub proof fn lemma_wav_samples_read_back(samples: Seq<i16>, i: int)
    requires
        0 <= i < samples.len(),
    ensures
        ({
            let wav = wav_header(data_size_field(samples.len())) + pcm16_le(samples);
            read_le_u16(wav[WAV_HEADER_LEN + 2 * i], wav[WAV_HEADER_LEN + 2 * i + 1]) as i16
                == samples[i]
        }),
{
    let header = wav_header(data_size_field(samples.len()));
    assert(header.len() == 44);
    lemma_pcm16_le_index(samples, i);
    lemma_sample_bytes_read_back(samples[i]);
}

/// The size fields of a file made by `create_wav` read back as the number of
/// sample bytes (at offset 40) and that number plus 36 (at offset 4), and the
/// file starts with `RIFF` and carries `WAVE` at offset 8.
pub proof fn lemma_wav_header_read_back(samples: Seq<i16>)
    requires
        data_size_field(samples.len()) <= u32::MAX - 36,
    ensures
        ({
            let wav = wav_header(data_size_field(samples.len())) + pcm16_le(samples);
            &&& wav.subrange(0, 4) == riff_tag()
            &&& wav.subrange(8, 12) == wave_tag()
            &&& wav.subrange(36, 40) == data_tag()
            &&& read_le_u32(wav, 4) == data_size_field(samples.len()) + 36
            &&& read_le_u32(wav, 40) == data_size_field(samples.len())
        }),
{
    let d = data_size_field(samples.len());
    let wav = wav_header(d) + pcm16_le(samples);
    let p4 = riff_tag();
    let s4 = wav.subrange(8, wav.len() as int);
    assert(wav =~= p4 + le_u32((36 + d) as u32) + s4);
    lemma_u32_bytes_read_back((36 + d) as u32, p4, s4);
    let p40 = wav.subrange(0, 40);
    let s40 = pcm16_le(samples);
    assert(wav =~= p40 + le_u32(d) + s40);
    lemma_u32_bytes_read_back(d, p40, s40);
    assert(wav.subrange(0, 4) =~= riff_tag());
    assert(wav.subrange(8, 12) =~= wave_tag());
    assert(wav.subrange(36, 40) =~= data_tag());
}

} // verus!
