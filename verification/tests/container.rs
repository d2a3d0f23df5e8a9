use aes::Aes128;
use base64::{engine::general_purpose::STANDARD, Engine as _};
use cipher::{generic_array::GenericArray, BlockEncrypt, KeyInit};
use nadt::decode::{
    cover_extension, cover_name, cover_names, decode_audio, detect, is_processable, output_name,
    process_ncm_file, process_ncm_file_with_progress, try_process_ncm_file, AudioDecoder,
    AudioKind, Progress, Stage, CHUNK,
};
use nadt::json::parse_json;
use nadt::ncm_decrypt::{
    aes_ecb_decrypt, build_keybox, build_stream_lut, decode_metadata, stream_decrypt,
    stream_decrypt_in_place, strip_padding, CORE_KEY, MODIFY_KEY,
};
use nadt::ncm_file::{
    header_from_key, metadata_from, parse_metadata, read_header, read_key_block, read_tail,
    try_read_header, HeaderError, NcmMetadata,
};

fn encrypt(key: &[u8; 16], data: &[u8]) -> Vec<u8> {
    let pad = 16 - data.len() % 16;
    let mut out = data.to_vec();
    out.extend(vec![pad as u8; pad]);
    let cipher = Aes128::new(GenericArray::from_slice(key));
    for chunk in out.chunks_exact_mut(16) {
        cipher.encrypt_block(GenericArray::from_mut_slice(chunk));
    }
    out
}

/// The keystream, written down once more.
fn keystream(key: &[u8], len: usize) -> Vec<u8> {
    let mut b: Vec<u8> = (0..=255).collect();
    let mut last = 0usize;
    for i in 0..256 {
        let c = (b[i] as usize + last + key[i % key.len()] as usize) & 0xff;
        b.swap(i, c);
        last = c;
    }
    (0..len)
        .map(|i| {
            let j = (i + 1) & 0xff;
            let a = b[j] as usize;
            let inner = b[(a + j) & 0xff] as usize;
            b[(a + inner) & 0xff]
        })
        .collect()
}

const SECRET: &[u8] = b"E7fT49x7dof9OKCgg9cdvhEuezy3iZCL1nFvBFd1T4uSktAJKmwZXsijPbijliionVUXXg9plTbXEclAE9Lb";

fn head(secret: &[u8], json: Option<&str>, cover_len: u32) -> Vec<u8> {
    let mut file = b"CTENFDAM\x01\x70".to_vec();
    let mut plain = b"neteasecloudmusic".to_vec();
    plain.extend_from_slice(secret);
    let key: Vec<u8> = encrypt(&CORE_KEY, &plain).iter().map(|b| b ^ 0x64).collect();
    file.extend_from_slice(&(key.len() as u32).to_le_bytes());
    file.extend(key);
    let meta: Vec<u8> = match json {
        None => Vec::new(),
        Some(text) => {
            let mut raw = b"163 key(Don't modify):".to_vec();
            let plain = format!("music:{text}");
            raw.extend(STANDARD.encode(encrypt(&MODIFY_KEY, plain.as_bytes())).into_bytes());
            raw.iter().map(|b| b ^ 0x63).collect()
        }
    };
    file.extend_from_slice(&(meta.len() as u32).to_le_bytes());
    file.extend(meta);
    file.extend_from_slice(&[7u8; 9]);
    file.extend_from_slice(&cover_len.to_le_bytes());
    file
}

fn container(json: Option<&str>, cover: &[u8], audio: &[u8]) -> Vec<u8> {
    let mut file = head(SECRET, json, cover.len() as u32);
    file.extend_from_slice(cover);
    let stream = keystream(SECRET, audio.len());
    file.extend(audio.iter().zip(stream).map(|(a, k)| a ^ k));
    file
}

const JSON: &str = r#"{"musicName":"Song","artist":[["One",1],["Two",2],[],[3],"x"],"album":"Album","format":"flac"}"#;

fn mp3_audio() -> Vec<u8> {
    b"ID3\x03\x00\x00\x00\x00\x00\x00\xff\xfb\x90\x00audio".to_vec()
}

#[test]
fn aes_follows_the_standard() {
    let key: [u8; 16] = [0, 1, 2, 3, 4, 5, 6, 7, 8, 9, 10, 11, 12, 13, 14, 15];
    let cipher_text = [
        0x69, 0xc4, 0xe0, 0xd8, 0x6a, 0x7b, 0x04, 0x30, 0xd8, 0xcd, 0xb7, 0x80, 0x70, 0xb4, 0xc5,
        0x5a,
    ];
    let plain = [
        0x00, 0x11, 0x22, 0x33, 0x44, 0x55, 0x66, 0x77, 0x88, 0x99, 0xaa, 0xbb, 0xcc, 0xdd, 0xee,
        0xff,
    ];
    assert_eq!(aes_ecb_decrypt(&key, &cipher_text), plain);
    let mut longer = cipher_text.to_vec();
    longer.extend_from_slice(&cipher_text);
    longer.extend_from_slice(b"rest");
    let mut want = plain.to_vec();
    want.extend_from_slice(&plain);
    want.extend_from_slice(b"rest");
    assert_eq!(aes_ecb_decrypt(&key, &longer), want);
    assert_eq!(aes_ecb_decrypt(&key, &[]), Vec::<u8>::new());
}

#[test]
fn padding_is_removed_where_it_is_one() {
    assert_eq!(strip_padding(vec![1, 2, 3, 3, 3]), [1, 2]);
    assert_eq!(strip_padding(vec![1, 2, 2, 3]), [1, 2, 2, 3]);
    assert_eq!(strip_padding(vec![5, 0]), [5, 0]);
    assert_eq!(strip_padding(vec![17; 17]), [17; 17]);
    assert_eq!(strip_padding(vec![16; 16]), Vec::<u8>::new());
    assert_eq!(strip_padding(vec![3, 3]), [3, 3]);
}

#[test]
fn metadata_is_base64_or_raw() {
    let sealed = encrypt(&MODIFY_KEY, b"music:{}");
    assert_eq!(decode_metadata(STANDARD.encode(&sealed).as_bytes()), b"music:{}");
    assert_eq!(decode_metadata(&sealed), b"music:{}");
}

#[test]
fn the_keystream_is_the_known_one() {
    let keybox = build_keybox(SECRET);
    let mut sorted = keybox.to_vec();
    sorted.sort();
    assert_eq!(sorted, (0..=255).collect::<Vec<u8>>());
    let data: Vec<u8> = (0..1000u32).map(|i| (i * 7) as u8).collect();
    let stream = keystream(SECRET, 1000);
    let want: Vec<u8> = data.iter().zip(&stream).map(|(a, k)| a ^ k).collect();
    let out = stream_decrypt(&keybox, &data);
    assert_eq!(out, want);
    assert_eq!(stream_decrypt(&keybox, &out), data);
    assert_eq!(stream[0..100], stream[256..356]);
    let lut = build_stream_lut(&keybox);
    assert_eq!(lut[1], stream[0]);
    let mut pieces = data.clone();
    stream_decrypt_in_place(&lut, 0, &mut pieces[..300]);
    stream_decrypt_in_place(&lut, 300, &mut pieces[300..]);
    assert_eq!(pieces, want);
}

#[test]
fn a_known_key_gives_a_known_box() {
    let b = build_keybox(&[0]);
    assert_eq!(&b[..4], &[0, 35, 3, 43]);
}

#[test]
fn a_song_is_described_by_its_document() {
    let m = metadata_from(&parse_json(JSON));
    assert_eq!(
        (m.title.as_str(), m.artist.as_str(), m.album.as_str(), m.format.as_str(), m.picture_type),
        ("Song", "One/Two", "Album", "flac", 3)
    );
    let m = metadata_from(&None);
    assert_eq!((m.title.as_str(), m.format.as_str(), m.picture_type), ("", "mp3", 3));
    let m = metadata_from(&parse_json("[1]"));
    assert_eq!((m.title.as_str(), m.artist.as_str(), m.format.as_str()), ("", "", "mp3"));
    let d = NcmMetadata::default();
    assert_eq!((d.title.as_str(), d.format.as_str(), d.picture_type), ("", "", 0));
    let raw = STANDARD.encode(encrypt(&MODIFY_KEY, format!("music:{JSON}").as_bytes()));
    assert_eq!(parse_metadata(raw.as_bytes()).title, "Song");
    assert_eq!(parse_metadata(b"???").format, "mp3");
}

#[test]
fn a_header_is_read() {
    let file = container(Some(JSON), b"\x89PNGcover", &mp3_audio());
    let total = file.len() as u64;
    let h = read_header(&file, total).unwrap();
    assert_eq!(h.metadata.title, "Song");
    assert_eq!(h.keybox, build_keybox(SECRET));
    let start = total - mp3_audio().len() as u64;
    assert_eq!(h.audio_offset, start);
    assert_eq!(h.cover, Some((start - 9, 9)));
    let other = [b"NETCMADF".as_slice(), &file[8..]].concat();
    assert!(read_header(&other, total).is_ok());
}

#[test]
fn a_cover_is_cut_at_the_end_of_the_file() {
    let mut file = head(SECRET, None, 1000);
    file.extend_from_slice(b"abc");
    let h = read_header(&file, file.len() as u64).unwrap();
    assert_eq!(h.cover, Some((file.len() as u64 - 3, 3)));
    assert_eq!(h.audio_offset, file.len() as u64);
    assert_eq!(h.metadata.format, "mp3");
    let file = head(SECRET, None, 5);
    let h = read_header(&file, file.len() as u64).unwrap();
    assert_eq!((h.cover, h.audio_offset), (None, file.len() as u64));
    let h = read_header(&file, 120).unwrap();
    assert_eq!((h.cover, h.audio_offset), (None, file.len() as u64));
}

#[test]
fn a_header_that_ends_early_says_what_it_needs() {
    let file = container(Some(JSON), b"cover", b"audio");
    let total = file.len() as u64;
    let whole = read_header(&file, total).unwrap().audio_offset as usize - 5;
    let mut seen = Vec::new();
    for n in 0..whole {
        match try_read_header(&file[..n], total) {
            Some(Err(HeaderError::UnexpectedEof { needed })) => {
                assert!(needed as usize > n && needed as usize <= whole);
                if seen.last() != Some(&needed) {
                    seen.push(needed);
                }
            }
            _ => panic!("at {n}"),
        }
    }
    assert_eq!(seen.len(), 7);
    assert_eq!(seen[0], 10);
    assert_eq!(seen[1], 14);
    assert_eq!(*seen.last().unwrap() as usize, whole);
    assert!(read_header(&file[..whole], total).is_ok());
}

#[test]
fn broken_headers_are_refused() {
    let file = container(None, b"", b"");
    let total = file.len() as u64;
    let mut bad = file.clone();
    bad[0] = b'X';
    assert!(matches!(read_header(&bad, total), Err(HeaderError::InvalidHeader)));
    let mut bad = file.clone();
    bad[10..14].copy_from_slice(&[0, 0, 0, 0]);
    assert!(matches!(read_header(&bad, total), Err(HeaderError::InvalidKeyBlock)));
    bad[10..14].copy_from_slice(&(total as u32 + 1).to_le_bytes());
    assert!(matches!(read_key_block(&bad, total), Err(HeaderError::InvalidKeyBlock)));
    let mut short = b"CTENFDAM\x00\x00".to_vec();
    let key: Vec<u8> = encrypt(&CORE_KEY, b"short").iter().map(|b| b ^ 0x64).collect();
    short.extend_from_slice(&(key.len() as u32).to_le_bytes());
    short.extend(key);
    assert!(matches!(read_header(&short, 100), Err(HeaderError::InvalidKey)));
    assert_eq!(HeaderError::InvalidHeader.message(), "invalid NCM header");
    assert_eq!(HeaderError::InvalidKeyBlock.message(), "invalid key block");
    assert_eq!(HeaderError::InvalidKey.message(), "invalid key");
    assert_eq!(
        HeaderError::UnexpectedEof { needed: 1 }.message(),
        "failed to fill whole buffer"
    );
}

#[test]
fn an_empty_key_is_told_apart() {
    let file = head(b"", None, 0);
    assert!(try_read_header(&file, file.len() as u64).is_none());
    assert!(!is_processable(&file));
    assert!(try_process_ncm_file(&file).is_none());
}

#[test]
fn a_header_is_built_from_its_key() {
    let file = container(None, b"", b"x");
    let total = file.len() as u64;
    let block = read_key_block(&file, total).unwrap();
    let key = aes_ecb_decrypt(&CORE_KEY, &block);
    assert_eq!(&key[..17], b"neteasecloudmusic");
    let h = header_from_key(&file, total, &key, block.len()).unwrap();
    assert_eq!(h.keybox, build_keybox(SECRET));
    let r = header_from_key(&file, total, b"short", block.len());
    assert!(matches!(r, Err(HeaderError::InvalidKey)));
    let tail = read_tail(&file, 14 + block.len(), total).unwrap();
    assert_eq!((tail.metadata.len(), tail.image_start, tail.cover_len), (0, total - 1, 0));
}

#[test]
fn audio_is_told_by_its_first_bytes() {
    assert_eq!(detect(b"fLaC...."), AudioKind::Flac);
    assert_eq!(detect(b"ID3\x03"), AudioKind::Mp3);
    assert_eq!(detect(b"\xff\xfb"), AudioKind::Mp3);
    assert_eq!(detect(b"\xff\xdf"), AudioKind::Flac);
    assert_eq!(detect(b"fLa"), AudioKind::Flac);
    assert_eq!(detect(b""), AudioKind::Flac);
    assert_eq!(detect(b"ID3\x03more"), detect(b"ID3\x03"));
}

#[test]
fn a_decoder_reports_its_progress() {
    let mut d = AudioDecoder::new(&build_keybox(SECRET), 1000, 100);
    let mut a = vec![0u8; 9];
    assert_eq!(d.feed(&mut a), None);
    let mut b = vec![0u8; 1];
    assert_eq!(d.feed(&mut b), Some(1));
    let mut c = vec![0u8; 890];
    assert_eq!(d.feed(&mut c), Some(90));
    let stream = keystream(SECRET, 900);
    assert_eq!([a, b, c].concat(), stream);
    assert_eq!(d.feed(&mut [0u8; 0]), None);
    let d = AudioDecoder::new(&build_keybox(SECRET), 100, 100);
    assert_eq!(d.span, 1);
}

#[test]
fn audio_is_decoded_in_chunks() {
    let n = 3 * CHUNK;
    let (out, pcts) = decode_audio(&build_keybox(SECRET), &vec![0u8; n], n as u64);
    assert_eq!(out, keystream(SECRET, n));
    assert_eq!(pcts, [30, 60, 90]);
}

#[test]
fn an_mp3_is_decoded_and_tagged() {
    let file = container(Some(JSON), b"\x89PNGcover", &mp3_audio());
    let (events, result) = process_ncm_file_with_progress(&file);
    let d = result.ok().unwrap();
    assert_eq!(d.kind, AudioKind::Mp3);
    assert_eq!(d.cover.as_deref(), Some(b"\x89PNGcover".as_slice()));
    assert!(d.audio.windows(4).any(|w| w == b"Song"));
    assert!(d.audio.windows(7).any(|w| w == b"One/Two"));
    assert!(d.audio.ends_with(b"\xff\xfb\x90\x00audio"));
    let want: Vec<Progress> = [
        (Stage::ReadFile, 2),
        (Stage::DecryptAudio, 90),
        (Stage::WriteTags, 92),
        (Stage::WriteCover, 96),
        (Stage::Done, 100),
    ]
    .iter()
    .map(|(stage, pct)| Progress { stage: *stage, pct: *pct })
    .collect();
    assert_eq!(events, want);
    let mut stage = Stage::ReadFile;
    for e in &events {
        assert_eq!(e.stage, stage);
        assert!(stage.pct().is_none() || stage.pct() == Some(e.pct));
        stage = stage.next(true);
    }
    assert_eq!(Stage::WriteTags.next(false), Stage::Done);
    let labels: Vec<&str> = events.iter().map(|e| e.stage.label()).collect();
    assert_eq!(labels, ["读取文件", "解密音频", "写入 Tag", "写入封面", "完成"]);
}

#[test]
fn an_mp3_without_a_tag_gets_one() {
    let audio = b"\xff\xfb\x90\x00audio";
    let d = process_ncm_file(&container(Some(JSON), b"", audio)).ok().unwrap();
    assert_eq!(d.kind, AudioKind::Mp3);
    let size = d.audio[9] as usize;
    assert_eq!(&d.audio[..9], b"ID3\x03\0\0\0\0\0");
    assert_eq!(&d.audio[10 + size..], audio);
    assert_eq!(&d.audio[10..14], b"TIT2");
}

#[test]
fn a_flac_is_decoded_and_tagged() {
    let audio = b"fLaC\x80\x00\x00\x04infoframes";
    let d = process_ncm_file(&container(Some(JSON), b"", audio)).ok().unwrap();
    assert_eq!(d.kind, AudioKind::Flac);
    assert!(d.cover.is_none());
    assert!(d.audio.starts_with(b"fLaC\x00\x00\x00\x04info\x84"));
    assert!(d.audio.ends_with(b"frames"));
    assert!(d.audio.windows(10).any(|w| w == b"TITLE=Song"));
}

#[test]
fn audio_that_is_no_flac_stays() {
    let d = process_ncm_file(&container(Some(JSON), b"", b"noise")).ok().unwrap();
    assert_eq!((d.kind, d.audio.as_slice()), (AudioKind::Flac, b"noise".as_slice()));
    let (events, result) = try_process_ncm_file(&container(None, b"", b"")).unwrap();
    assert!(result.is_ok());
    assert_eq!(events.len(), 3);
    assert_eq!(events[2].pct, 100);
}

#[test]
fn a_broken_file_reports_and_fails() {
    let (events, result) = try_process_ncm_file(b"not a container").unwrap();
    assert!(matches!(result, Err(HeaderError::InvalidHeader)));
    assert_eq!(events, [Progress { stage: Stage::ReadFile, pct: 2 }]);
    assert!(try_process_ncm_file(&container(None, b"", b"ID3\x03\x00\x00\x00\x00\x00\x09")).is_none());
}

#[test]
fn outputs_are_named_after_the_input() {
    assert_eq!(output_name("A - B", AudioKind::Mp3), "A - B.mp3");
    assert_eq!(output_name("x", AudioKind::Flac), "x.flac");
    assert_eq!(cover_name("x", b"\x89PNG"), "x.cover.png");
    assert_eq!(cover_name("x", b"\xff\xd8"), "x.cover.jpg");
    assert_eq!(cover_extension(b""), "jpg");
    assert_eq!(cover_names("x"), ("x.cover.png".to_string(), "x.cover.jpg".to_string()));
}
