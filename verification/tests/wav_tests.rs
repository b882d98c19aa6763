use audio_transcription::wav::{create_wav, WAV_HEADER_LEN};

#[test]
fn test_create_wav() {
    let samples = vec![0i16; 16000];

    let wav = create_wav(&samples);

    assert_eq!(&wav[0..4], b"RIFF");
    assert_eq!(&wav[8..12], b"WAVE");

    assert_eq!(wav.len(), 32044);
}

#[test]
fn test_empty_wav() {
    let samples: Vec<i16> = Vec::new();

    let wav = create_wav(&samples);

    assert_eq!(&wav[0..4], b"RIFF");
    assert_eq!(&wav[8..12], b"WAVE");
}

fn read_u32(b: &[u8], at: usize) -> u32 {
    u32::from_le_bytes([b[at], b[at + 1], b[at + 2], b[at + 3]])
}

fn read_u16(b: &[u8], at: usize) -> u16 {
    u16::from_le_bytes([b[at], b[at + 1]])
}

#[test]
fn wav_header_fields() {
    let wav = create_wav(&[1, 2, 3]);
    assert_eq!(wav.len(), WAV_HEADER_LEN + 6);
    assert_eq!(read_u32(&wav, 4), 42);
    assert_eq!(&wav[12..16], b"fmt ");
    assert_eq!(read_u32(&wav, 16), 16);
    assert_eq!(read_u16(&wav, 20), 1);
    assert_eq!(read_u16(&wav, 22), 1);
    assert_eq!(read_u32(&wav, 24), 16000);
    assert_eq!(read_u32(&wav, 28), 32000);
    assert_eq!(read_u16(&wav, 32), 2);
    assert_eq!(read_u16(&wav, 34), 16);
    assert_eq!(&wav[36..40], b"data");
    assert_eq!(read_u32(&wav, 40), 6);
}

#[test]
fn empty_wav_is_a_bare_header() {
    let wav = create_wav(&[]);
    assert_eq!(wav.len(), 44);
    assert_eq!(read_u32(&wav, 4), 36);
    assert_eq!(read_u32(&wav, 40), 0);
}

#[test]
fn wav_samples_read_back_little_endian() {
    let samples = [0i16, -2, 258, i16::MIN, i16::MAX];
    let wav = create_wav(&samples);
    assert_eq!(&wav[44..46], &[0x00, 0x00]);
    assert_eq!(&wav[46..48], &[0xFE, 0xFF]);
    assert_eq!(&wav[48..50], &[0x02, 0x01]);
    for (i, s) in samples.iter().enumerate() {
        let at = WAV_HEADER_LEN + 2 * i;
        assert_eq!(i16::from_le_bytes([wav[at], wav[at + 1]]), *s);
    }
}
