use nadt::id3::{
    add_id3_frame, append_id3_cover, append_id3_lyrics, append_id3_metadata, is_png,
    lyrics_frame_body, mime_of, minimal_id3, opens_with_tag, tag_is_complete,
};

/// Collect the frame IDs present in an ID3v2 tag, in order.
fn frame_ids(data: &[u8]) -> Vec<String> {
    let mut ids = Vec::new();
    if !data.starts_with(b"ID3") || data.len() < 10 {
        return ids;
    }
    let size = ((data[6] as usize & 0x7f) << 21)
        | ((data[7] as usize & 0x7f) << 14)
        | ((data[8] as usize & 0x7f) << 7)
        | (data[9] as usize & 0x7f);
    let tag_end = 10 + size;
    let mut pos = 10usize;
    while pos + 10 <= tag_end {
        if data[pos] == 0 {
            break;
        }
        let fsize = u32::from_be_bytes(data[pos + 4..pos + 8].try_into().unwrap()) as usize;
        let next = pos + 10 + fsize;
        if next > tag_end {
            break;
        }
        ids.push(String::from_utf8_lossy(&data[pos..pos + 4]).into_owned());
        pos = next;
    }
    ids
}

fn frame(id: &[u8; 4], body: &[u8]) -> Vec<u8> {
    let mut f = id.to_vec();
    f.extend_from_slice(&(body.len() as u32).to_be_bytes());
    f.extend_from_slice(&[0, 0]);
    f.extend_from_slice(body);
    f
}

fn tagged(frames: &[Vec<u8>], padding: usize, audio: &[u8]) -> Vec<u8> {
    let mut body: Vec<u8> = frames.concat();
    body.extend(vec![0u8; padding]);
    let n = body.len();
    let mut data = b"ID3\x03\x00\x00".to_vec();
    data.extend_from_slice(&[
        ((n >> 21) & 0x7f) as u8,
        ((n >> 14) & 0x7f) as u8,
        ((n >> 7) & 0x7f) as u8,
        (n & 0x7f) as u8,
    ]);
    data.extend(body);
    data.extend_from_slice(audio);
    data
}

/// Writing metadata twice must not duplicate frames in the ID3 tag.
#[test]
fn id3_frames_are_replaced_not_duplicated() {
    // Minimal payload: an ID3 tag with one TIT2 frame, then audio bytes.
    let mut data = b"ID3\x03\x00\x00\x00\x00\x00\x0e".to_vec();
    let body = b"\x03Old";
    data.extend_from_slice(b"TIT2");
    data.extend_from_slice(&(body.len() as u32).to_be_bytes());
    data.extend_from_slice(&[0, 0]);
    data.extend_from_slice(body);
    data.extend_from_slice(b"\xff\xfb\x90\x00audio");

    let once = append_id3_metadata(data, "New Title", "New Artist", "New Album", 3);
    let out = append_id3_metadata(once.clone(), "New Title", "New Artist", "New Album", 3);

    let ids = frame_ids(&out);
    for id in ["TIT2", "TPE1", "TALB"] {
        assert_eq!(ids.iter().filter(|x| x.as_str() == id).count(), 1, "{id} duplicated in {ids:?}");
    }
    // The replacement value must be the one that survives.
    assert!(out.windows(9).any(|w| w == b"New Title"));
    assert!(!out.windows(3).any(|w| w == b"Old"));
    assert_eq!(out, once);
    assert!(out.ends_with(b"\xff\xfb\x90\x00audio"));
}

#[test]
fn a_frame_keeps_its_place_and_the_others_stay() {
    let data = tagged(
        &[frame(b"TALB", b"\x03A"), frame(b"TIT2", b"\x03B"), frame(b"TPE1", b"\x03C")],
        7,
        b"audio",
    );
    let out = add_id3_frame(data, b"TIT2", b"\x03Longer");
    assert_eq!(frame_ids(&out), ["TALB", "TIT2", "TPE1"]);
    assert_eq!(
        out,
        tagged(
            &[frame(b"TALB", b"\x03A"), frame(b"TIT2", b"\x03Longer"), frame(b"TPE1", b"\x03C")],
            0,
            b"audio",
        )
    );
}

#[test]
fn several_frames_of_one_name_become_one() {
    let data = tagged(
        &[frame(b"TIT2", b"1"), frame(b"TPE1", b"x"), frame(b"TIT2", b"2")],
        0,
        b"",
    );
    let out = add_id3_frame(data, b"TIT2", b"3");
    assert_eq!(out, tagged(&[frame(b"TIT2", b"3"), frame(b"TPE1", b"x")], 0, b""));
}

#[test]
fn a_new_frame_goes_to_the_end_before_the_padding() {
    let data = tagged(&[frame(b"TIT2", b"1")], 20, b"audio");
    let out = add_id3_frame(data, b"TPE1", b"2");
    assert_eq!(out, tagged(&[frame(b"TIT2", b"1"), frame(b"TPE1", b"2")], 0, b"audio"));
}

#[test]
fn data_without_a_tag_gets_a_tag_in_front() {
    let out = add_id3_frame(b"\xff\xfb".to_vec(), b"TIT2", b"\x03a");
    assert_eq!(out, b"ID3\x03\0\0\0\0\0\x0cTIT2\0\0\0\x02\0\0\x03a\xff\xfb");
    assert_eq!(frame_ids(&out), ["TIT2"]);
    assert_eq!(add_id3_frame(out.clone(), b"TIT2", b"\x03a"), out);
    let short = add_id3_frame(b"ID3".to_vec(), b"TIT2", b"x");
    assert_eq!(short, tagged(&[frame(b"TIT2", b"x")], 0, b"ID3"));
}

#[test]
fn metadata_of_untagged_audio_is_written_once() {
    let audio = b"\xff\xfb\x90\x00audio";
    let once = append_id3_metadata(audio.to_vec(), "T", "A", "B", 3);
    assert_eq!(frame_ids(&once), ["TIT2", "TPE1", "TALB"]);
    assert_eq!(
        once,
        tagged(
            &[frame(b"TIT2", b"\x03T"), frame(b"TPE1", b"\x03A"), frame(b"TALB", b"\x03B")],
            0,
            audio,
        )
    );
    assert_eq!(append_id3_metadata(once.clone(), "T", "A", "B", 3), once);
    let covered = append_id3_cover(audio.to_vec(), b"jpg");
    assert_eq!(minimal_id3(&covered).unwrap(), covered);
}

#[test]
fn a_large_tag_has_a_syncsafe_size() {
    let data = tagged(&[], 0, b"");
    let out = add_id3_frame(data, b"APIC", &vec![7u8; 20000]);
    // 20010 = 1 * 16384 + 28 * 128 + 42
    assert_eq!(&out[6..10], &[0, 1, 28, 42]);
    assert_eq!(out.len(), 20020);
}

#[test]
fn trimming_keeps_title_artist_picture_and_lyrics() {
    let data = tagged(
        &[
            frame(b"TIT2", b"1"),
            frame(b"TALB", b"2"),
            frame(b"APIC", b"3"),
            frame(b"TRCK", b"4"),
            frame(b"TXXX", b"5"),
            frame(b"USLT", b"6"),
            frame(b"SYLT", b"7"),
            frame(b"TPE1", b"8"),
        ],
        11,
        b"audio",
    );
    let out = minimal_id3(&data).unwrap();
    assert_eq!(frame_ids(&out), ["TIT2", "APIC", "TXXX", "USLT", "SYLT", "TPE1"]);
    assert!(out.ends_with(b"audio"));
    assert_eq!(minimal_id3(&out).unwrap(), out);
}

#[test]
fn trimming_leaves_data_without_a_whole_tag_alone() {
    assert_eq!(minimal_id3(b"no tag here"), None);
    assert_eq!(minimal_id3(b"ID3"), None);
    let mut cut = tagged(&[frame(b"TIT2", b"1")], 0, b"");
    cut.pop();
    assert_eq!(minimal_id3(&cut), None);
    assert!(!tag_is_complete(&cut));
    assert!(opens_with_tag(&cut));
    assert!(tag_is_complete(b"no tag here"));
    assert!(!opens_with_tag(b"ID3"));
}

#[test]
fn metadata_is_stored_as_utf8() {
    let out = append_id3_metadata(tagged(&[], 0, b"x"), "é", "b", "c", 3);
    assert_eq!(
        out,
        tagged(
            &[
                frame(b"TIT2", b"\x03\xc3\xa9"),
                frame(b"TPE1", b"\x03b"),
                frame(b"TALB", b"\x03c"),
            ],
            0,
            b"x",
        )
    );
}

#[test]
fn lyrics_are_utf16_with_carriage_returns() {
    let body = lyrics_frame_body("a\n𝄞");
    let mut want = vec![1u8, 0xff, 0xfe];
    for u in "LYRICS".encode_utf16() {
        want.extend_from_slice(&u.to_le_bytes());
    }
    want.extend_from_slice(&[0, 0, 0xff, 0xfe]);
    for u in "a\r\n𝄞".encode_utf16() {
        want.extend_from_slice(&u.to_le_bytes());
    }
    assert_eq!(body, want);
    let out = append_id3_lyrics(tagged(&[], 0, b""), "a\n𝄞".as_bytes());
    assert_eq!(out, tagged(&[frame(b"TXXX", &want)], 0, b""));
}

#[test]
fn lyrics_with_invalid_bytes_are_read_lossily() {
    let out = append_id3_lyrics(tagged(&[], 0, b""), b"a\xffb");
    assert_eq!(out, tagged(&[frame(b"TXXX", &lyrics_frame_body("a\u{fffd}b"))], 0, b""));
}

#[test]
fn a_cover_names_its_type() {
    let png = b"\x89PNG1234";
    assert!(is_png(png));
    assert_eq!(mime_of(png), "image/png");
    assert_eq!(mime_of(b"\xff\xd8"), "image/jpeg");
    let out = append_id3_cover(tagged(&[], 0, b""), png);
    let mut body = b"\x00image/png\x00\x03\x00".to_vec();
    body.extend_from_slice(png);
    assert_eq!(out, tagged(&[frame(b"APIC", &body)], 0, b""));
    let out = append_id3_cover(tagged(&[], 0, b""), b"jpg");
    assert_eq!(out, tagged(&[frame(b"APIC", b"\x00image/jpeg\x00\x03\x00jpg")], 0, b""));
}

#[test]
fn the_last_write_wins() {
    let tag = tagged(&[frame(b"TPE1", b"x"), frame(b"TIT2", b"0")], 5, b"audio");
    for data in [tag, b"audio".to_vec()] {
        let once = add_id3_frame(data.clone(), b"TIT2", b"first");
        assert_eq!(add_id3_frame(once, b"TIT2", b"2"), add_id3_frame(data, b"TIT2", b"2"));
    }
}
