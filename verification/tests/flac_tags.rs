use nadt::flac::{
    append_flac_cover, append_flac_lyrics, append_flac_metadata, comments_are_complete,
    comments_are_readable, insert_flac_block, is_essential, is_replaced_by, minimal_flac,
    upsert_flac_comments, FlacError,
};

fn block(last: bool, kind: u8, payload: &[u8]) -> Vec<u8> {
    let n = payload.len();
    let mut b = vec![
        kind | if last { 0x80 } else { 0 },
        (n >> 16) as u8,
        (n >> 8) as u8,
        n as u8,
    ];
    b.extend_from_slice(payload);
    b
}

fn comments(vendor: &[u8], list: &[&[u8]]) -> Vec<u8> {
    let mut p = (vendor.len() as u32).to_le_bytes().to_vec();
    p.extend_from_slice(vendor);
    p.extend_from_slice(&(list.len() as u32).to_le_bytes());
    for c in list {
        p.extend_from_slice(&(c.len() as u32).to_le_bytes());
        p.extend_from_slice(c);
    }
    p
}

fn flac(blocks: &[Vec<u8>], audio: &[u8]) -> Vec<u8> {
    let mut data = b"fLaC".to_vec();
    data.extend(blocks.concat());
    data.extend_from_slice(audio);
    data
}

#[test]
fn a_block_is_added_behind_the_last() {
    let mut data = flac(&[block(false, 0, b"info"), block(true, 1, b"pad")], b"audio");
    assert_eq!(insert_flac_block(&mut data, 6, b"pic"), Ok(()));
    assert_eq!(
        data,
        flac(
            &[block(false, 0, b"info"), block(false, 1, b"pad"), block(true, 6, b"pic")],
            b"audio",
        )
    );
}

#[test]
fn broken_streams_are_refused_and_stay() {
    let mut data = b"OggS....".to_vec();
    assert_eq!(insert_flac_block(&mut data, 6, b"x"), Err(FlacError::NotFlac));
    assert_eq!(data, b"OggS....");
    assert_eq!(FlacError::NotFlac.message(), "not FLAC");
    let mut data = b"fLaC\x00\x00".to_vec();
    assert_eq!(insert_flac_block(&mut data, 6, b"x"), Err(FlacError::TruncatedMetadata));
    let mut data = b"fLaC\x00\x00\x00\x09abc".to_vec();
    assert_eq!(insert_flac_block(&mut data, 6, b"x"), Err(FlacError::TruncatedBlock));
    assert_eq!(data, b"fLaC\x00\x00\x00\x09abc");
}

#[test]
fn entries_replace_comments_of_their_key() {
    let mut data = flac(
        &[
            block(false, 0, b"info"),
            block(true, 4, &comments(b"vendor", &[b"title=old", b"GENRE=pop", b"Title=older"])),
        ],
        b"audio",
    );
    let entries = ["TITLE=new".to_string()];
    assert_eq!(upsert_flac_comments(&mut data, &entries), Ok(()));
    let want = flac(
        &[
            block(false, 0, b"info"),
            block(true, 4, &comments(b"vendor", &[b"GENRE=pop", b"TITLE=new"])),
        ],
        b"audio",
    );
    assert_eq!(data, want);
    assert_eq!(upsert_flac_comments(&mut data, &entries), Ok(()));
    assert_eq!(data, want);
    assert!(is_replaced_by("tItLe=x", &entries));
    assert!(!is_replaced_by("GENRE=x", &entries));
}

#[test]
fn a_stream_without_comments_gets_one_block() {
    let mut data = flac(&[block(true, 0, b"info")], b"audio");
    assert_eq!(append_flac_metadata(&mut data, "T", "A", "B"), Ok(()));
    let want = flac(
        &[
            block(false, 0, b"info"),
            block(true, 4, &comments(b"", &[b"TITLE=T", b"ARTIST=A", b"ALBUM=B"])),
        ],
        b"audio",
    );
    assert_eq!(data, want);
    assert_eq!(append_flac_metadata(&mut data, "T", "A", "B"), Ok(()));
    assert_eq!(data, want);
}

#[test]
fn lyrics_go_into_a_comment() {
    let mut data = flac(&[block(true, 4, &comments(b"v", &[b"LYRICS=old"]))], b"");
    assert_eq!(append_flac_lyrics(&mut data, b"new \xff"), Ok(()));
    let entry = "LYRICS=new \u{fffd}";
    assert_eq!(data, flac(&[block(true, 4, &comments(b"v", &[entry.as_bytes()]))], b""));
    let before = data.clone();
    assert_eq!(append_flac_lyrics(&mut data, b""), Ok(()));
    assert_eq!(data, before);
    let mut other = b"mp3".to_vec();
    assert_eq!(append_flac_lyrics(&mut other, b"x"), Err(FlacError::NotFlac));
    assert_eq!(append_flac_lyrics(&mut other, b""), Ok(()));
}

#[test]
fn a_cover_is_a_picture_block() {
    let mut data = flac(&[block(true, 0, b"")], b"");
    assert_eq!(append_flac_cover(&mut data, b"\x89PNG"), Ok(()));
    let mut p = vec![0, 0, 0, 3, 0, 0, 0, 9];
    p.extend_from_slice(b"image/png");
    p.extend_from_slice(&[0u8; 20]);
    p.extend_from_slice(&[0, 0, 0, 4]);
    p.extend_from_slice(b"\x89PNG");
    assert_eq!(data, flac(&[block(false, 0, b""), block(true, 6, &p)], b""));
}

#[test]
fn a_trimmed_stream_keeps_title_artist_and_lyrics() {
    let pic = block(true, 6, b"picture");
    let data = flac(
        &[
            block(
                false,
                4,
                &comments(b"v", &[b"ALBUM=x", b"title=t", b"ARTIST=a", b"DATE=1", b"Lyrics=l"]),
            ),
            pic.clone(),
        ],
        b"audio",
    );
    let want = flac(
        &[block(false, 4, &comments(b"v", &[b"title=t", b"ARTIST=a", b"Lyrics=l"])), pic],
        b"audio",
    );
    assert_eq!(minimal_flac(&data), Ok(Some(want.clone())));
    assert_eq!(minimal_flac(&want), Ok(Some(want.clone())));
    assert!(is_essential("artist=x"));
    assert!(!is_essential("ALBUMARTIST=x"));
}

#[test]
fn a_stream_without_comments_is_not_trimmed() {
    assert_eq!(minimal_flac(&flac(&[block(true, 0, b"info")], b"audio")), Ok(None));
    assert_eq!(minimal_flac(b"ID3"), Err(FlacError::NotFlac));
    assert_eq!(minimal_flac(b"fLaC\x00"), Err(FlacError::TruncatedMetadata));
}

#[test]
fn incomplete_comments_are_told_apart() {
    let mut p = comments(b"v", &[b"A=1"]);
    assert!(comments_are_complete(&flac(&[block(true, 4, &p)], b"")));
    p[5] = 2;
    let data = flac(&[block(true, 4, &p)], b"");
    assert!(comments_are_readable(&data));
    assert!(!comments_are_complete(&data));
    let data = flac(&[block(true, 4, &[9, 0, 0, 0, 1])], b"");
    assert!(!comments_are_readable(&data));
}

#[test]
fn a_cover_leaves_the_comments_alone() {
    let c = comments(b"v", &[b"TITLE=t"]);
    let mut data = flac(&[block(false, 0, b"info"), block(true, 4, &c)], b"audio");
    assert_eq!(append_flac_cover(&mut data, b"jpg"), Ok(()));
    assert!(comments_are_complete(&data));
    assert!(data.starts_with(&flac(&[block(false, 0, b"info"), block(false, 4, &c)], b"")));
    assert!(data.ends_with(b"jpgaudio"));
}

#[test]
fn the_last_entries_win() {
    let c = comments(b"v", &[b"TITLE=t", b"GENRE=g"]);
    for blocks in [vec![block(true, 4, &c)], vec![block(true, 0, b"info")]] {
        let data = flac(&blocks, b"audio");
        let mut twice = data.clone();
        assert_eq!(append_flac_metadata(&mut twice, "one", "a", "b"), Ok(()));
        assert_eq!(append_flac_metadata(&mut twice, "two", "c", "d"), Ok(()));
        let mut once = data;
        assert_eq!(append_flac_metadata(&mut once, "two", "c", "d"), Ok(()));
        assert_eq!(twice, once);
    }
}
