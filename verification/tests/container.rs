use fpvflow_core::audio::container::{inspect, Verdict};
use fpvflow_core::audio::decode::{open_audio, DecodeError};
use fpvflow_core::audio::SourceFormat;

/// A format chunk of a WAV file, with what follows the first sixteen bytes.
fn wav(tag: u16, bits: u16, rate: u32, extra: &[u8]) -> Vec<u8> {
    wav_of(tag, bits, rate, 1, 2, extra)
}

fn wav_of(tag: u16, bits: u16, rate: u32, channels: u16, align: u16, extra: &[u8]) -> Vec<u8> {
    let mut file = Vec::new();
    file.extend_from_slice(b"RIFF");
    file.extend_from_slice(&(4 + 24 + extra.len() as u32 + 16).to_le_bytes());
    file.extend_from_slice(b"WAVEfmt ");
    file.extend_from_slice(&(16 + extra.len() as u32).to_le_bytes());
    file.extend_from_slice(&tag.to_le_bytes());
    file.extend_from_slice(&channels.to_le_bytes());
    file.extend_from_slice(&rate.to_le_bytes());
    file.extend_from_slice(&(rate * 2).to_le_bytes());
    file.extend_from_slice(&align.to_le_bytes());
    file.extend_from_slice(&bits.to_le_bytes());
    file.extend_from_slice(extra);
    file.extend_from_slice(b"data");
    file.extend_from_slice(&8u32.to_le_bytes());
    file.extend_from_slice(&[0; 8]);
    file
}

/// The extensible part of a format chunk, of the PCM kind.
fn extensible(valid_bits: u16) -> Vec<u8> {
    masked(valid_bits, 4)
}

fn masked(valid_bits: u16, mask: u32) -> Vec<u8> {
    let mut v = Vec::new();
    v.extend_from_slice(&22u16.to_le_bytes());
    v.extend_from_slice(&valid_bits.to_le_bytes());
    v.extend_from_slice(&mask.to_le_bytes());
    v.extend_from_slice(&[1, 0, 0, 0, 0, 0, 0x10, 0, 0x80, 0, 0, 0xaa, 0, 0x38, 0x9b, 0x71]);
    v
}

fn be(v: u32) -> Vec<u8> {
    v.to_be_bytes().to_vec()
}

fn bx(tag: &[u8; 4], parts: &[Vec<u8>]) -> Vec<u8> {
    let body: Vec<u8> = parts.concat();
    let mut v = be(8 + body.len() as u32);
    v.extend_from_slice(tag);
    v.extend_from_slice(&body);
    v
}

/// A movie with one track, of which some parts can be set.
fn mp4(timescale: u32, entry: &[u8; 4], version: u8, handler: usize, times: u32, item: Vec<u8>) -> Vec<u8> {
    let stts = bx(b"stts", &[be(0), be(times), be(4), be(1)]);
    let stsc = bx(b"stsc", &[be(0), be(1), be(1), be(4), be(1)]);
    movie(timescale, entry, version, handler, stts, stsc, Vec::new(), bx(b"\xa9nam", &[item]))
}

/// The same, with tables, boxes of the sample entry and items of its own.
fn movie(
    timescale: u32,
    entry: &[u8; 4],
    version: u8,
    handler: usize,
    stts: Vec<u8>,
    stsc: Vec<u8>,
    inner: Vec<u8>,
    items: Vec<u8>,
) -> Vec<u8> {
    let mdhd = bx(b"mdhd", &[be(0), be(0), be(0), be(timescale), be(4), be(0)]);
    let hdlr = bx(b"hdlr", &[[be(0), be(0), b"soun".to_vec(), be(0), be(0), be(0), b"x".to_vec()].concat()[..handler].to_vec()]);
    let mut sample = vec![0, 0, 0, 0, 0, 0, 0, 1, 0, version];
    sample.extend_from_slice(&[0; 6]);
    sample.extend_from_slice(&[0, 2, 0, 16, 0, 0, 0, 0]);
    sample.extend_from_slice(&(48000u32 << 16).to_be_bytes());
    if version == 2 {
        sample.extend_from_slice(&be(72));
        sample.extend_from_slice(&48000f64.to_be_bytes());
        for v in [2, 0x7f00_0000, 16, 4, 4, 1] {
            sample.extend_from_slice(&be(v));
        }
    }
    let stsd = bx(b"stsd", &[be(0), be(1), bx(entry, &[sample, inner])]);
    let stsz = bx(b"stsz", &[be(0), be(4), be(4)]);
    let stco = bx(b"stco", &[be(0), be(1), be(24)]);
    let stbl = bx(b"stbl", &[stsd, stts, stsc, stsz, stco]);
    let mdia = bx(b"mdia", &[mdhd, hdlr, bx(b"minf", &[stbl])]);
    let tkhd = bx(b"tkhd", &[vec![0; 84]]);
    let mvhd = bx(b"mvhd", &[vec![0; 100]]);
    let meta = bx(b"meta", &[be(0), bx(b"ilst", &[items])]);
    let moov = bx(b"moov", &[mvhd, bx(b"trak", &[tkhd, mdia]), bx(b"udta", &[meta])]);
    [bx(b"ftyp", &[b"M4A ".to_vec(), be(0)]), bx(b"mdat", &[vec![1; 16]]), moov].concat()
}

fn title() -> Vec<u8> {
    bx(b"data", &[be(1), be(0), b"voo".to_vec()])
}

fn told(bytes: Vec<u8>) -> String {
    match open_audio(bytes, None).err().unwrap() {
        DecodeError::UnsupportedFormat(text) => text,
        other => panic!("{other:?}"),
    }
}

/// No reader is asked.
fn lost(bytes: Vec<u8>) {
    assert_eq!(inspect(&bytes), Verdict::Lost);
    assert_eq!(told(bytes), "cabeçalho malformado");
}

fn cut(bytes: Vec<u8>) {
    assert_eq!(inspect(&bytes), Verdict::Cut);
    assert_eq!(told(bytes), "end of stream");
}

/// The reader is asked, and answers with an error of its own.
fn refused(bytes: Vec<u8>) {
    assert_eq!(inspect(&bytes), Verdict::Sound);
    assert_ne!(told(bytes), "cabeçalho malformado");
}

fn opened(bytes: Vec<u8>) -> (u32, SourceFormat, u16) {
    assert_eq!(inspect(&bytes), Verdict::Sound);
    let (_, track) = open_audio(bytes, None).unwrap();
    (track.sample_rate, track.source_format, track.channels)
}

#[test]
fn absurd_wave_formats_are_not_opened() {
    assert_eq!(opened(wav(1, 16, 48000, &[])), (48000, SourceFormat::S16, 1));
    lost(wav(1, 16, 0, &[]));
    assert_eq!(opened(wav(0xfffe, 16, 48000, &extensible(16))), (48000, SourceFormat::S16, 1));
    lost(wav(0xfffe, 0, 48000, &extensible(0)));
    refused(wav(0x55, 16, 0, &[]));
}

#[test]
fn blocks_must_hold_their_heads() {
    let ms = [32u16.to_le_bytes().to_vec(), vec![0; 32]].concat();
    let ima = [2u16.to_le_bytes().to_vec(), vec![0; 2]].concat();
    assert_eq!(opened(wav_of(2, 4, 8000, 2, 256, &ms)).0, 8000);
    assert_eq!(opened(wav_of(2, 4, 8000, 2, 14, &ms)).0, 8000);
    lost(wav_of(2, 4, 8000, 2, 13, &ms));
    lost(wav_of(2, 4, 8000, 2, 14 + 8192, &ms));
    assert_eq!(opened(wav_of(0x11, 4, 8000, 2, 8, &ima)).0, 8000);
    lost(wav_of(0x11, 4, 8000, 2, 7, &ima));
    lost(wav_of(0x11, 4, 8000, 1, 4 + 8192, &ima));
    refused(wav_of(0x11, 4, 8000, 0, 7, &ima));
    refused(wav_of(2, 8, 8000, 2, 7, &ms));
}

#[test]
fn speakers_must_fit_their_mask() {
    assert_eq!(opened(wav_of(0xfffe, 16, 8000, 2, 4, &masked(16, 0))).2, 2);
    assert_eq!(opened(wav_of(0xfffe, 16, 8000, 1, 2, &masked(16, 0x8000_0003))).2, 1);
    lost(wav_of(0xfffe, 16, 8000, 32, 64, &masked(16, 0)));
    lost(wav_of(0xfffe, 16, 8000, 2, 4, &masked(16, 0x8000_0000)));
    refused(wav_of(0xfffe, 16, 8000, 31, 62, &masked(16, 0)));
}

#[test]
fn only_chunks_count_that_are_walked_to() {
    // Samples that look like an absurd format.
    let mut file = wav(1, 16, 48000, &[]);
    let absurd = wav(1, 16, 0, &[])[12..].to_vec();
    let n = file.len() - 12;
    file[n..n + 4].copy_from_slice(&(absurd.len() as u32).to_le_bytes());
    file.truncate(n + 4);
    file.extend_from_slice(&absurd);
    let whole = (file.len() - 8) as u32;
    file[4..8].copy_from_slice(&whole.to_le_bytes());
    assert_eq!(opened(file), (48000, SourceFormat::S16, 1));
    // The count of what is consumed runs over behind a format of odd length.
    let mut file = wav(0xfffe, 16, 8000, &extensible(16));
    file[4..8].copy_from_slice(&u32::MAX.to_le_bytes());
    file[16..20].copy_from_slice(&(u32::MAX - 8).to_le_bytes());
    lost(file);
    // A list of information that announces more than there is.
    let list = |len: u32| [b"LIST".to_vec(), 20u32.to_le_bytes().to_vec(), b"INFOINAM".to_vec(), len.to_le_bytes().to_vec(), vec![65; 8]].concat();
    let with = |list: Vec<u8>| {
        let mut file = wav(1, 16, 8000, &[]);
        file.splice(12..12, list);
        let whole = (file.len() - 8) as u32;
        file[4..8].copy_from_slice(&whole.to_le_bytes());
        file
    };
    assert_eq!(opened(with(list(8))).0, 8000);
    refused(with(list(9)));
    let mut file = with(list(u32::MAX - 100));
    file[4..8].copy_from_slice(&u32::MAX.to_le_bytes());
    file[16..20].copy_from_slice(&(u32::MAX - 50).to_le_bytes());
    cut(file);
}

#[test]
fn absurd_movies_are_not_opened() {
    assert_eq!(opened(mp4(48000, b"sowt", 0, 25, 1, title())), (48000, SourceFormat::S16, 2));
    assert_eq!(opened(mp4(48000, b"lpcm", 2, 25, 1, title())), (48000, SourceFormat::S16, 2));
    lost(mp4(0, b"sowt", 0, 25, 1, title()));
    lost(mp4(48000, b"lpcm", 0, 25, 1, title()));
    lost(mp4(48000, b"sowt", 0, 20, 1, title()));
    cut(mp4(48000, b"sowt", 0, 25, u32::MAX, title()));
    let short = || mp4(48000, b"sowt", 0, 25, 1, bx(b"data", &[be(1)]));
    refused(short());
    lost([short(), bx(b"free", &[])].concat());
}

fn runs(entries: &[[u32; 3]]) -> Vec<u8> {
    let mut parts = vec![be(0), be(entries.len() as u32)];
    for e in entries {
        parts.extend(e.iter().map(|v| be(*v)));
    }
    bx(b"stsc", &parts)
}

fn times(entries: &[[u32; 2]]) -> Vec<u8> {
    let mut parts = vec![be(0), be(entries.len() as u32)];
    for e in entries {
        parts.extend(e.iter().map(|v| be(*v)));
    }
    bx(b"stts", &parts)
}

#[test]
fn sums_of_tables_must_not_run_over() {
    let with = |stts: Vec<u8>, stsc: Vec<u8>| movie(48000, b"sowt", 0, 25, stts, stsc, Vec::new(), Vec::new());
    let one = || runs(&[[1, 4, 1]]);
    let usual = || times(&[[4, 1]]);
    assert_eq!(opened(with(usual(), one())).0, 48000);
    assert_eq!(opened(with(usual(), runs(&[[1, 2, 1], [2, 1, 1]]))).0, 48000);
    lost(with(usual(), runs(&[[0, 4, 1]])));
    lost(with(usual(), runs(&[[1, 4, 1], [2, 4, 1], [0, 4, 1]])));
    lost(with(usual(), runs(&[[1, 0x1_0000, 1], [0x1_0001, 4, 1]])));
    lost(with(usual(), runs(&[[1, 0xffff, 1], [0x1_0001, 0x1_0000, 1], [0x1_0002, 1, 1]])));
    assert_eq!(opened(with(usual(), runs(&[[1, 0xffff, 1], [0x1_0001, 0xffff, 1], [0x1_0002, 1, 1]]))).0, 48000);
    refused(with(usual(), runs(&[[2, 4, 1], [1, 4, 1]])));
    refused(with(usual(), runs(&[[1, 0, 1]])));
    let most = [u32::MAX, u32::MAX];
    assert_eq!(opened(with(times(&[most]), one())).0, 48000);
    lost(with(times(&[most, most]), one()));
}

#[test]
fn a_movie_needs_its_descriptor() {
    let with = |parts: Vec<u8>| {
        let esds = bx(b"esds", &[be(0), parts]);
        movie(48000, b"mp4a", 0, 25, times(&[[4, 1]]), runs(&[[1, 4, 1]]), esds, Vec::new())
    };
    let config = [vec![4, 17, 0x40, 0x15], vec![0; 11], vec![5, 2, 0x11, 0x90]].concat();
    let layer = vec![6, 1, 2];
    let stream = |len: u8, inner: Vec<u8>| [vec![3, len, 0, 1, 0], inner].concat();
    let whole = [config.clone(), layer.clone()].concat();
    assert_eq!(opened(with(stream(25, whole.clone()))).0, 48000);
    let long = [vec![3, 0x80, 0x80, 0x80, 25, 0, 1, 0], whole.clone()].concat();
    assert_eq!(opened(with(long)).0, 48000);
    // No stream at all, a stream shorter than its fields, a short configuration.
    lost(with(vec![4, 1, 0]));
    lost(with(stream(2, whole.clone())));
    let mut short = whole.clone();
    short[1] = 12;
    lost(with(stream(25, short)));
    refused(with(stream(26, whole.clone())));
    refused(with(stream(22, config)));
    assert_eq!(opened(with(stream(25, [layer, whole].concat()))).0, 48000);
}

#[test]
fn boxes_are_read_as_far_as_they_reach() {
    let ftyp = bx(b"ftyp", &[b"M4A ".to_vec(), be(0)]);
    let long = [be(1), b"mdat".to_vec(), be(0), be(16 + 5), vec![7; 5]].concat();
    refused([ftyp.clone(), long.clone()].concat());
    let open_ended = [be(0), b"mdat".to_vec(), vec![7; 5]].concat();
    refused([ftyp.clone(), open_ended.clone()].concat());
    refused([ftyp.clone(), be(0), b"moov".to_vec(), vec![7; 5]].concat());
    refused([ftyp.clone(), long[..20].to_vec()].concat());
    refused([vec![0; 3], ftyp.clone(), vec![0; 16]].concat());
    // A place that runs over.
    lost([ftyp, be(1), b"mdat".to_vec(), be(u32::MAX), be(u32::MAX), vec![7; 5]].concat());
    let plain = mp4(48000, b"sowt", 0, 25, 1, title());
    assert_eq!(opened([plain.clone(), open_ended].concat()).0, 48000);
    assert_eq!(opened([plain, long].concat()).0, 48000);
}

#[test]
fn inner_boxes_may_be_long_or_open_ended() {
    let with = |inner: Vec<u8>, items: Vec<u8>| {
        movie(48000, b"sowt", 0, 25, times(&[[4, 1]]), runs(&[[1, 4, 1]]), inner, items)
    };
    let long = |tag: &[u8; 4]| [be(1), tag.to_vec(), be(0), be(16 + 4), vec![7; 4]].concat();
    let open_ended = |tag: &[u8; 4]| [be(0), tag.to_vec(), vec![7; 4]].concat();
    assert_eq!(opened(with(long(b"chan"), Vec::new())).0, 48000);
    assert_eq!(opened(with(open_ended(b"chan"), Vec::new())).0, 48000);
    // Items of a kind that is passed over may hold anything.
    let odd = bx(b"xxxx", &[vec![0, 0, 0, 3, 1]]);
    assert_eq!(opened(with(Vec::new(), odd)).0, 48000);
    refused(with(Vec::new(), bx(b"\xa9nam", &[vec![0, 0, 0, 3, 1, 2, 3, 4]])));
    lost(with(Vec::new(), bx(b"\xa9nam", &[open_ended(b"name")])));
    cut(with(Vec::new(), bx(b"\xa9nam", &[[be(1000), b"name".to_vec(), be(0)].concat()])));
}

#[test]
fn the_last_header_of_a_medium_counts() {
    // A second header with a time scale of its own.
    let mut file = mp4(0, b"sowt", 0, 25, 1, title());
    lost(file.clone());
    let at = file.windows(4).position(|w| w == b"hdlr").unwrap() - 4;
    let mdhd = bx(b"mdhd", &[be(0), be(0), be(0), be(44100), be(4), be(0)]);
    file.splice(at..at, mdhd.clone());
    for tag in [b"moov", b"trak", b"mdia"] {
        let p = file.windows(4).position(|w| w == tag).unwrap() - 4;
        let size = u32::from_be_bytes([file[p], file[p + 1], file[p + 2], file[p + 3]]);
        file[p..p + 4].copy_from_slice(&be(size + mdhd.len() as u32));
    }
    assert_eq!(opened(file).0, 48000);
}

#[test]
fn tags_are_passed_over() {
    let tag = |flags: u8, extended: u8, rest: &[u8], size: u8| {
        let mut v = b"ID3\x04\x00".to_vec();
        v.extend_from_slice(&[flags, 0, 0, 0, size, 0, 0, 0, 6, 1, extended]);
        v.extend_from_slice(rest);
        v.extend_from_slice(&vec![0; size as usize - 6 - rest.len()]);
        v
    };
    lost([tag(0, 0, &[], 20), wav(1, 16, 0, &[])].concat());
    let sound = || wav(1, 16, 8000, &[]);
    assert_eq!(opened([tag(0, 0, &[], 20), sound()].concat()), (8000, SourceFormat::S16, 1));
    assert_eq!(opened([tag(0x40, 0, &[], 20), sound()].concat()).0, 8000);
    // One of the restrictions is not survived.
    assert_eq!(opened([tag(0x40, 0x10, &[1, 0xbf], 20), sound()].concat()).0, 8000);
    lost([tag(0x40, 0x10, &[1, 0x40], 20), sound()].concat());
    lost([tag(0x40, 0x70, &[1, 5, 0, 0, 0, 0, 0, 1, 0x40], 40), sound()].concat());
    refused([tag(0x40, 0x10, &[2, 0x40], 20), sound()].concat());
    refused(tag(0, 0, &[], 100)[..40].to_vec());
}

#[test]
fn streams_are_left_to_their_readers() {
    refused(Vec::new());
    refused(vec![0; 100]);
    refused([b"fLaC".to_vec(), vec![0; 40]].concat());
    refused([vec![0xff, 0xfb], vec![0; 40]].concat());
    let frame = [vec![0xff, 0xf1, 0x4c, 0x80, 0x02, 0x1f, 0xfc], vec![0; 9]].concat();
    assert_eq!(opened(frame.repeat(8)).0, 48000);
    lost([vec![0; 16], frame.clone(), vec![0; 2]].concat());
    lost([vec![0; 40], frame.clone()].concat());
    assert_eq!(opened([vec![0; 16], frame.repeat(2)].concat()).0, 48000);
    let mut bad = frame;
    bad[2] = 0x74;
    refused([vec![0; 40], bad].concat());
}

#[test]
fn a_mark_is_searched_for_in_the_first_mebibyte() {
    let behind = |gap: usize| [vec![0; gap], wav(1, 16, 0, &[])].concat();
    lost(behind((1 << 20) - 2));
    refused(behind((1 << 20) - 1));
}
