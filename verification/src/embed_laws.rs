//! What is found in the audio after song, cover and lyrics were put in, and after
//! its tags were trimmed.

use vstd::prelude::*;
use vstd::utf8::encode_utf8;
use crate::bytes::{be24_at, concat};
use crate::decode::{tagged, AudioKind};
use crate::flac::{
    block_end, comment_block, comment_payload, comments_of, encoded, essential, is_flac,
    last_block, lyrics_entry, merged, metadata_entries, payload_at, picture_payload, vendor_of,
    vendor_readable, FlacError,
};
use crate::flac_content_laws::law_entries_hold_their_values;
use crate::flac_laws::{
    chain, exchanged, law_block_is_added_last, law_only_comments_change,
    law_trimming_keeps_the_essentials as law_flac_trimming, law_upsert_adds_one_block,
    law_upsert_is_idempotent, stream, Block,
};
use crate::id3::{
    apic, cover_body, has_tag, kept, lyrics_body, make_frame, syncsafe, tag_fits, talb, text_body,
    tit2, tpe1, trimmed_tag, txxx, with_frame, with_metadata,
};
use crate::id3_laws::{
    behind_tag, law_frame_is_replaced, law_metadata_is_written_once,
    law_trimming_keeps_the_essentials as law_id3_trimming, named, new_content, tag_frames,
};
use crate::ncm_file::SongInfo;
use crate::pipeline::{with_cover, with_lyrics, with_trimmed_tags};
use crate::text::lossy_text;

verus! {

proof fn lemma_ids()
    ensures
        apic() == seq![65u8, 80, 73, 67],
        txxx() == seq![84u8, 88, 88, 88],
        tit2() == seq![84u8, 73, 84, 50],
        tpe1() == seq![84u8, 80, 69, 49],
        talb() == seq![84u8, 65, 76, 66],
{
    assert(apic() =~= seq![65u8, 80, 73, 67]);
    assert(txxx() =~= seq![84u8, 88, 88, 88]);
    assert(tit2() =~= seq![84u8, 73, 84, 50]);
    assert(tpe1() =~= seq![84u8, 80, 69, 49]);
    assert(talb() =~= seq![84u8, 65, 76, 66]);
}

proof fn lemma_flac_marker(data: Seq<u8>)
    ensures
        is_flac(data) <==> data.len() >= 4 && data[0] == 102 && data[1] == 76 && data[2] == 97
            && data[3] == 67,
{
    let m = seq![0x66u8, 0x4cu8, 0x61u8, 0x43u8];
    if data.len() >= 4 {
        let t = data.take(4);
        assert(t[0] == data[0] && t[1] == data[1] && t[2] == data[2] && t[3] == data[3]);
        if data[0] == 102 && data[1] == 76 && data[2] == 97 && data[3] == 67 {
            assert(t =~= m);
        }
    }
}

proof fn lemma_chain_has_a_last_block(data: Seq<u8>, pos: int)
    requires
        0 <= pos <= data.len(),
        chain(data.skip(pos)) is Some,
    ensures
        last_block(data, pos) is Ok,
    decreases data.len() - pos,
{
    let rest = data.skip(pos);
    let end = block_end(data, pos);
    assert(be24_at(rest, 1) == be24_at(data, pos + 1));
    if data[pos] < 128 {
        assert(rest.skip(end - pos) =~= data.skip(end));
        lemma_chain_has_a_last_block(data, end);
    }
}

/// The cover of an MP3 is the one picture of its tag, and its audio stays.
pub proof fn law_cover_of_an_mp3(audio: Seq<u8>, cover: Seq<u8>)
    requires
        tag_fits(audio),
        new_content(audio, seq![65u8, 80, 73, 67], cover_body(cover)).len() < 268435456,
    ensures
        with_cover(AudioKind::Mp3, audio, cover) matches Ok(out) && {
            &&& named(tag_frames(out), seq![65u8, 80, 73, 67]) == seq![
                make_frame(seq![65u8, 80, 73, 67], cover_body(cover)),
            ]
            &&& behind_tag(out) == behind_tag(audio)
        },
{
    lemma_ids();
    let out = with_frame(audio, apic(), cover_body(cover));
    assert(with_cover(AudioKind::Mp3, audio, cover) == Ok::<Seq<u8>, FlacError>(out));
    law_frame_is_replaced(audio, apic(), cover_body(cover));
}

/// The cover of a FLAC stream is a picture block behind all other blocks, which
/// stay as they are, and so does the audio. Other data is refused.
pub proof fn law_cover_of_a_flac(audio: Seq<u8>, cover: Seq<u8>)
    requires
        picture_payload(cover).len() < 16777216,
    ensures
        stream(audio) matches Some((blocks, sound)) ==> (with_cover(AudioKind::Flac, audio, cover)
            matches Ok(out) && stream(out) == Some(
            (blocks.push(Block { kind: 6, payload: picture_payload(cover) }), sound),
        )),
        !(audio.len() >= 4 && audio[0] == 102 && audio[1] == 76 && audio[2] == 97 && audio[3] == 67)
            ==> with_cover(AudioKind::Flac, audio, cover) == Err::<Seq<u8>, FlacError>(
            FlacError::NotFlac,
        ),
{
    lemma_flac_marker(audio);
    if stream(audio) is Some {
        lemma_chain_has_a_last_block(audio, 4);
        law_block_is_added_last(audio, 6, picture_payload(cover));
    }
}

/// The lyrics of an MP3 are the one user text of its tag, whole, and its audio
/// stays.
pub proof fn law_lyrics_of_an_mp3(audio: Seq<u8>, lyrics: Seq<u8>)
    requires
        tag_fits(audio),
        new_content(audio, seq![84u8, 88, 88, 88], lyrics_body(lossy_text(lyrics))).len()
            < 268435456,
    ensures
        with_lyrics(AudioKind::Mp3, audio, lyrics) matches Ok(out) && {
            &&& named(tag_frames(out), seq![84u8, 88, 88, 88]) == seq![
                make_frame(seq![84u8, 88, 88, 88], lyrics_body(lossy_text(lyrics))),
            ]
            &&& behind_tag(out) == behind_tag(audio)
        },
{
    lemma_ids();
    let out = with_frame(audio, txxx(), lyrics_body(lossy_text(lyrics)));
    assert(with_lyrics(AudioKind::Mp3, audio, lyrics) == Ok::<Seq<u8>, FlacError>(out));
    law_frame_is_replaced(audio, txxx(), lyrics_body(lossy_text(lyrics)));
}

/// The comment that lyrics are stored in.
pub open spec fn lyrics_comment(lyrics: Seq<u8>) -> Seq<u8> {
    encode_utf8(seq!['L', 'Y', 'R', 'I', 'C', 'S', '='] + lossy_text(lyrics))
}

/// The lyrics of a FLAC stream are the last of its comments, whole. A stream
/// without comments gets a block for them. Empty lyrics change nothing.
pub proof fn law_lyrics_of_a_flac(audio: Seq<u8>, lyrics: Seq<u8>, h: int)
    requires
        is_flac(audio),
    ensures
        lyrics.len() == 0 ==> with_lyrics(AudioKind::Flac, audio, lyrics) == Ok::<
            Seq<u8>,
            FlacError,
        >(audio),
        lyrics.len() > 0 && comment_block(audio, 4) == Ok::<Option<int>, FlacError>(Some(h))
            && vendor_readable(audio, h) && comment_payload(
            vendor_of(payload_at(audio, h)),
            merged(comments_of(payload_at(audio, h)), seq![lyrics_entry(lossy_text(lyrics))]),
        ).len() < 16777216 ==> (with_lyrics(AudioKind::Flac, audio, lyrics) matches Ok(out) && {
            let list = comments_of(payload_at(out, h));
            list.len() > 0 && list.last() == lyrics_comment(lyrics)
        }),
        lyrics.len() > 0 && comment_block(audio, 4) == Ok::<Option<int>, FlacError>(None)
            && last_block(audio, 4) is Ok && comment_payload(
            Seq::empty(),
            encoded(seq![lyrics_entry(lossy_text(lyrics))]),
        ).len() < 16777216 ==> (with_lyrics(AudioKind::Flac, audio, lyrics) matches Ok(out)
            && comment_block(out, 4) matches Ok(Some(k)) && comments_of(payload_at(out, k)) == seq![
            lyrics_comment(lyrics),
        ]),
{
    let text = lossy_text(lyrics);
    let entries = seq![lyrics_entry(text)];
    law_entries_hold_their_values(text, text, text, text);
    assert(encoded(entries) =~= seq![lyrics_comment(lyrics)]);
    assert forall|i: int| 0 <= i < entries.len() implies (#[trigger] entries[i]).contains('=') by {
        assert(entries[i][6] == '=');
    }
    if lyrics.len() > 0 && comment_block(audio, 4) == Ok::<Option<int>, FlacError>(Some(h))
        && vendor_readable(audio, h) && comment_payload(
        vendor_of(payload_at(audio, h)),
        merged(comments_of(payload_at(audio, h)), entries),
    ).len() < 16777216 {
        law_upsert_is_idempotent(audio, h, entries);
    }
    if lyrics.len() > 0 && comment_block(audio, 4) == Ok::<Option<int>, FlacError>(None)
        && last_block(audio, 4) is Ok && comment_payload(
        Seq::empty(),
        encoded(entries),
    ).len() < 16777216 {
        law_upsert_adds_one_block(audio, entries);
    }
}

/// A trimmed MP3 has the frames of its tag that stay, and the same audio. One
/// without a tag stays as it is.
pub proof fn law_trimmed_mp3(audio: Seq<u8>)
    requires
        tag_fits(audio),
    ensures
        with_trimmed_tags(AudioKind::Mp3, audio) matches Ok(out) && {
            &&& has_tag(audio) ==> tag_frames(out) == kept(tag_frames(audio)) && behind_tag(out)
                == behind_tag(audio)
            &&& !has_tag(audio) ==> out == audio
        },
{
    if has_tag(audio) {
        law_id3_trimming(audio);
    }
}

/// A trimmed FLAC stream has the comments that stay, with the same vendor text, in
/// its first comment block, and every other block, pictures among them, and the
/// audio as before. One without comments stays as it is, and other data is
/// refused.
pub proof fn law_trimmed_flac(audio: Seq<u8>, h: int)
    ensures
        comment_block(audio, 4) == Ok::<Option<int>, FlacError>(Some(h)) && vendor_readable(audio, h)
            && stream(audio) is Some && comment_payload(
            vendor_of(payload_at(audio, h)),
            essential(comments_of(payload_at(audio, h))),
        ).len() < 16777216 ==> (with_trimmed_tags(AudioKind::Flac, audio) matches Ok(out) && stream(
            audio,
        ) matches Some((blocks, sound)) && {
            let body = comment_payload(
                vendor_of(payload_at(audio, h)),
                essential(comments_of(payload_at(audio, h))),
            );
            &&& comments_of(payload_at(out, h)) == essential(comments_of(payload_at(audio, h)))
            &&& stream(out) == Some((exchanged(blocks, body), sound))
        }),
        is_flac(audio) && comment_block(audio, 4) == Ok::<Option<int>, FlacError>(None)
            ==> with_trimmed_tags(AudioKind::Flac, audio) == Ok::<Seq<u8>, FlacError>(audio),
        !(audio.len() >= 4 && audio[0] == 102 && audio[1] == 76 && audio[2] == 97 && audio[3] == 67)
            ==> with_trimmed_tags(AudioKind::Flac, audio) == Err::<Seq<u8>, FlacError>(
            FlacError::NotFlac,
        ),
{
    lemma_flac_marker(audio);
    if comment_block(audio, 4) == Ok::<Option<int>, FlacError>(Some(h)) && vendor_readable(audio, h)
        && stream(audio) is Some && comment_payload(
        vendor_of(payload_at(audio, h)),
        essential(comments_of(payload_at(audio, h))),
    ).len() < 16777216 {
        law_flac_trimming(audio, h);
        law_only_comments_change(audio, h, essential(comments_of(payload_at(audio, h))));
    }
}

/// The song in the tag of an MP3: one frame each for title, artist and album, with
/// the whole texts, and the same audio.
pub proof fn law_song_of_an_mp3(audio: Seq<u8>, song: SongInfo)
    requires
        tag_fits(audio),
        new_content(audio, tit2(), text_body(song.title)).len() < 268435456,
        new_content(
            with_frame(audio, tit2(), text_body(song.title)),
            tpe1(),
            text_body(song.artist),
        ).len() < 268435456,
        new_content(
            with_frame(
                with_frame(audio, tit2(), text_body(song.title)),
                tpe1(),
                text_body(song.artist),
            ),
            talb(),
            text_body(song.album),
        ).len() < 268435456,
    ensures
        ({
            let out = tagged(AudioKind::Mp3, audio, song);
            let (title, artist, album) = (
                seq![84u8, 73, 84, 50],
                seq![84u8, 80, 69, 49],
                seq![84u8, 65, 76, 66],
            );
            &&& named(tag_frames(out), title) == seq![make_frame(title, text_body(song.title))]
            &&& named(tag_frames(out), artist) == seq![make_frame(artist, text_body(song.artist))]
            &&& named(tag_frames(out), album) == seq![make_frame(album, text_body(song.album))]
            &&& behind_tag(out) == behind_tag(audio)
        }),
{
    lemma_ids();
    assert(tagged(AudioKind::Mp3, audio, song) == with_metadata(
        audio,
        song.title,
        song.artist,
        song.album,
    ));
    law_metadata_is_written_once(audio, song.title, song.artist, song.album);
}

/// The song in the comments of a FLAC stream: the last three are title, artist and
/// album, whole. Data that is no FLAC stream stays as it is.
pub proof fn law_song_of_a_flac(audio: Seq<u8>, song: SongInfo, h: int)
    ensures
        ({
            let entries = metadata_entries(song.title, song.artist, song.album);
            let out = tagged(AudioKind::Flac, audio, song);
            let title = encode_utf8(seq!['T', 'I', 'T', 'L', 'E', '='] + song.title);
            let artist = encode_utf8(seq!['A', 'R', 'T', 'I', 'S', 'T', '='] + song.artist);
            let album = encode_utf8(seq!['A', 'L', 'B', 'U', 'M', '='] + song.album);
            &&& !is_flac(audio) ==> out == audio
            &&& is_flac(audio) && comment_block(audio, 4) == Ok::<Option<int>, FlacError>(Some(h))
                && vendor_readable(audio, h) && comment_payload(
                vendor_of(payload_at(audio, h)),
                merged(comments_of(payload_at(audio, h)), entries),
            ).len() < 16777216 ==> {
                let list = comments_of(payload_at(out, h));
                &&& list.len() >= 3
                &&& list.skip(list.len() - 3) == seq![title, artist, album]
            }
            &&& is_flac(audio) && comment_block(audio, 4) == Ok::<Option<int>, FlacError>(None)
                && last_block(audio, 4) is Ok && comment_payload(
                Seq::empty(),
                encoded(entries),
            ).len() < 16777216 ==> (comment_block(out, 4) matches Ok(Some(k)) && comments_of(
                payload_at(out, k),
            ) == seq![title, artist, album])
        }),
{
    let entries = metadata_entries(song.title, song.artist, song.album);
    law_entries_hold_their_values(song.title, song.artist, song.album, song.title);
    let title = encode_utf8(seq!['T', 'I', 'T', 'L', 'E', '='] + song.title);
    let artist = encode_utf8(seq!['A', 'R', 'T', 'I', 'S', 'T', '='] + song.artist);
    let album = encode_utf8(seq!['A', 'L', 'B', 'U', 'M', '='] + song.album);
    assert(encoded(entries) =~= seq![title, artist, album]);
    assert forall|i: int| 0 <= i < entries.len() implies (#[trigger] entries[i]).contains('=') by {
        assert(entries[0][5] == '=');
        assert(entries[1][6] == '=');
        assert(entries[2][5] == '=');
    }
    if is_flac(audio) && comment_block(audio, 4) == Ok::<Option<int>, FlacError>(Some(h))
        && vendor_readable(audio, h) && comment_payload(
        vendor_of(payload_at(audio, h)),
        merged(comments_of(payload_at(audio, h)), entries),
    ).len() < 16777216 {
        law_upsert_is_idempotent(audio, h, entries);
        let list = merged(comments_of(payload_at(audio, h)), entries);
        assert(list.skip(list.len() - 3) =~= encoded(entries));
    }
    if is_flac(audio) && comment_block(audio, 4) == Ok::<Option<int>, FlacError>(None)
        && last_block(audio, 4) is Ok && comment_payload(
        Seq::empty(),
        encoded(entries),
    ).len() < 16777216 {
        law_upsert_adds_one_block(audio, entries);
    }
}

/// A stream that cannot be edited is refused with the reason, whatever is to be put
/// in, and the song is then left out.
pub proof fn law_refused_streams(audio: Seq<u8>, cover: Seq<u8>, lyrics: Seq<u8>, song: SongInfo)
    ensures
        is_flac(audio) ==> match last_block(audio, 4) {
            Err(e) => with_cover(AudioKind::Flac, audio, cover) == Err::<Seq<u8>, FlacError>(e),
            Ok(_) => with_cover(AudioKind::Flac, audio, cover) is Ok,
        },
        is_flac(audio) ==> match comment_block(audio, 4) {
            Err(e) => {
                &&& lyrics.len() > 0 ==> with_lyrics(AudioKind::Flac, audio, lyrics) == Err::<
                    Seq<u8>,
                    FlacError,
                >(e)
                &&& with_trimmed_tags(AudioKind::Flac, audio) == Err::<Seq<u8>, FlacError>(e)
                &&& tagged(AudioKind::Flac, audio, song) == audio
            },
            Ok(_) => with_trimmed_tags(AudioKind::Flac, audio) is Ok,
        },
        !is_flac(audio) && lyrics.len() > 0 ==> with_lyrics(AudioKind::Flac, audio, lyrics) == Err::<
            Seq<u8>,
            FlacError,
        >(FlacError::NotFlac),
        is_flac(audio) <==> audio.len() >= 4 && audio[0] == 102 && audio[1] == 76 && audio[2] == 97
            && audio[3] == 67,
{
    lemma_flac_marker(audio);
}

/// A trimmed MP3 has a tag of version 3 without flags, whose size covers its frames,
/// and then the frames and the audio. A tag that does not lie within the data is
/// left alone.
pub proof fn law_layout_of_a_trimmed_mp3(audio: Seq<u8>)
    ensures
        with_trimmed_tags(AudioKind::Mp3, audio) matches Ok(out) && {
            &&& !tag_fits(audio) ==> out == audio
            &&& has_tag(audio) && tag_fits(audio) ==> {
                let content = concat(kept(tag_frames(audio)));
                &&& out.take(6) == seq![73u8, 68, 51, 3, 0, 0]
                &&& out.subrange(6, 10) == syncsafe(content.len() as int)
                &&& out.skip(10) == content + behind_tag(audio)
            }
        },
{
    if has_tag(audio) && tag_fits(audio) {
        let content = concat(kept(tag_frames(audio)));
        let out = trimmed_tag(audio);
        assert(out.take(6) =~= seq![73u8, 68, 51, 3, 0, 0]);
        assert(out.subrange(6, 10) =~= syncsafe(content.len() as int));
        assert(out.skip(10) =~= content + behind_tag(audio));
    }
}

} // verus!
