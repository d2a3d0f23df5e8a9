//! ID3v2 tags: a header with a 28-bit size, then frames, then padding.

use vstd::prelude::*;
use vstd::slice::slice_subrange;
use vstd::utf8::encode_utf8;
use crate::text::{chars_of, crlf, decode_lossy, push_utf16, to_crlf, utf16, lossy_text};
use crate::bytes::{
    append, be32, be32_at, begins_with, concat, copy_range, lemma_concat_cons, lemma_concat_one,
    push_be32, read_be32, same_bytes, starts_with,
};

verus! {

broadcast use crate::bytes::number_lengths;

/// The three bytes that open a tag.
pub open spec fn marker() -> Seq<u8> {
    seq![0x49u8, 0x44u8, 0x33u8]
}

/// Whether the data opens with a complete tag header.
pub open spec fn has_tag(data: Seq<u8>) -> bool {
    begins_with(data, marker()) && data.len() >= 10
}

/// The size that the tag header declares: seven bits of each of four bytes.
#[verifier::opaque]
pub open spec fn tag_size(data: Seq<u8>) -> int {
    (data[6] % 128) * 2097152 + (data[7] % 128) * 16384 + (data[8] % 128) * 128 + data[9] % 128
}

/// The position right behind the tag.
pub open spec fn tag_end(data: Seq<u8>) -> int {
    10 + tag_size(data)
}

/// The declared size lies within the data, where there is a tag at all.
pub open spec fn tag_fits(data: Seq<u8>) -> bool {
    has_tag(data) ==> tag_end(data) <= data.len()
}

/// What stands between the tag header and the end of the tag.
pub open spec fn tag_body(data: Seq<u8>) -> Seq<u8> {
    data.subrange(10, tag_end(data))
}

/// The low 28 bits of `n`, seven to a byte.
pub open spec fn syncsafe(n: int) -> Seq<u8> {
    seq![
        ((n / 2097152) % 128) as u8,
        ((n / 16384) % 128) as u8,
        ((n / 128) % 128) as u8,
        (n % 128) as u8,
    ]
}

/// Whether a whole frame stands at the start of `body`. A zero byte starts the
/// padding.
pub open spec fn frame_here(body: Seq<u8>) -> bool {
    body.len() >= 10 && body[0] != 0 && 10 + be32_at(body, 4) <= body.len()
}

/// The frames of a tag body, each with its ten-byte header, up to the padding
/// or to the first frame that does not fit.
pub open spec fn frames(body: Seq<u8>) -> Seq<Seq<u8>>
    decreases body.len(),
{
    if frame_here(body) {
        let n = 10 + be32_at(body, 4);
        seq![body.take(n)] + frames(body.skip(n))
    } else {
        Seq::empty()
    }
}

/// The identifier of a frame.
pub open spec fn frame_id(frame: Seq<u8>) -> Seq<u8> {
    frame.take(4)
}

/// The frame that holds `body` under `id`.
pub open spec fn make_frame(id: Seq<u8>, body: Seq<u8>) -> Seq<u8> {
    id + be32(body.len() as int) + seq![0u8, 0u8] + body
}

/// The frames whose identifier is not `id`.
pub open spec fn without(fs: Seq<Seq<u8>>, id: Seq<u8>) -> Seq<Seq<u8>>
    decreases fs.len(),
{
    if fs.len() == 0 {
        Seq::empty()
    } else if frame_id(fs[0]) == id {
        without(fs.skip(1), id)
    } else {
        seq![fs[0]] + without(fs.skip(1), id)
    }
}

/// The frames with `frame` in place of the first one named `id`, and every
/// later one of that name left out. Where none has that name, `frame` comes
/// last.
pub open spec fn replaced(fs: Seq<Seq<u8>>, id: Seq<u8>, frame: Seq<u8>) -> Seq<Seq<u8>>
    decreases fs.len(),
{
    if fs.len() == 0 {
        seq![frame]
    } else if frame_id(fs[0]) == id {
        seq![frame] + without(fs.skip(1), id)
    } else {
        seq![fs[0]] + replaced(fs.skip(1), id, frame)
    }
}

/// The data with the content of its tag exchanged for `content`.
pub open spec fn with_content(data: Seq<u8>, content: Seq<u8>) -> Seq<u8> {
    data.take(6) + syncsafe(content.len() as int) + content + data.skip(tag_end(data))
}

/// How a new tag opens: the marker, the version and no flags. The size follows.
pub open spec fn new_header() -> Seq<u8> {
    seq![0x49u8, 0x44u8, 0x33u8, 3u8, 0u8, 0u8]
}

/// The data with one frame inserted into its tag. Data without a tag gets a new
/// tag in front that holds the frame.
pub open spec fn with_frame(data: Seq<u8>, id: Seq<u8>, body: Seq<u8>) -> Seq<u8> {
    let frame = make_frame(id, body);
    if has_tag(data) {
        with_content(data, concat(replaced(frames(tag_body(data)), id, frame)))
    } else {
        new_header() + syncsafe(frame.len() as int) + frame + data
    }
}

/// Whether the data opens with a complete tag header.
pub fn opens_with_tag(data: &[u8]) -> (yes: bool)
    ensures
        yes == has_tag(data@),
{
    let tag: [u8; 3] = [0x49, 0x44, 0x33];
    assert(tag@ =~= marker());
    starts_with(data, &tag) && data.len() >= 10
}

/// The position right behind the tag.
fn end_of_tag(data: &[u8]) -> (end: usize)
    requires
        data@.len() >= 10,
    ensures
        end == tag_end(data@),
        end >= 10,
{
    proof {
        reveal(tag_size);
    }
    10 + (data[6] % 128) as usize * 2097152 + (data[7] % 128) as usize * 16384 + (data[8]
        % 128) as usize * 128 + (data[9] % 128) as usize
}

/// Whether the tag, where there is one, lies within the data.
pub fn tag_is_complete(data: &[u8]) -> (yes: bool)
    ensures
        yes == tag_fits(data@),
{
    !opens_with_tag(data) || end_of_tag(data) <= data.len()
}

fn push_syncsafe(out: &mut Vec<u8>, n: usize)
    ensures
        final(out)@ == old(out)@ + syncsafe(n as int),
{
    out.push(((n / 2097152) % 128) as u8);
    out.push(((n / 16384) % 128) as u8);
    out.push(((n / 128) % 128) as u8);
    out.push((n % 128) as u8);
    assert(out@ =~= old(out)@ + syncsafe(n as int));
}

/// The length of the frame at `pos`, if a whole one stands there.
fn frame_len(body: &[u8], pos: usize) -> (len: Option<usize>)
    requires
        pos <= body@.len(),
    ensures
        match len {
            Some(n) => frame_here(body@.skip(pos as int)) && n == 10 + be32_at(
                body@.skip(pos as int),
                4,
            ) && pos + n <= body.len(),
            None => !frame_here(body@.skip(pos as int)),
        },
{
    let ghost rest = body@.skip(pos as int);
    let left = body.len() - pos;
    if left < 10 || body[pos] == 0 {
        return None;
    }
    let size = read_be32(body, pos + 4);
    assert(be32_at(rest, 4) == size);
    if size > left - 10 {
        return None;
    }
    Some(size + 10)
}

/// Inserts a frame into the tag in place of any frame with the same identifier.
///
/// Data that has no tag gets a new tag in front that holds the frame.
pub fn add_id3_frame(data: Vec<u8>, id: &[u8; 4], body: &[u8]) -> (out: Vec<u8>)
    requires
        tag_fits(data@),
    ensures
        out@ == with_frame(data@, id@, body@),
        tag_fits(out@),
{
    proof {
        lemma_with_frame_fits(data@, id@, body@);
    }
    let mut frame: Vec<u8> = vstd::slice::slice_to_vec(id.as_slice());
    push_be32(&mut frame, body.len());
    frame.push(0);
    frame.push(0);
    append(&mut frame, body);
    assert(frame@ =~= make_frame(id@, body@));
    if !opens_with_tag(&data) {
        let mut out: Vec<u8> = vec![0x49, 0x44, 0x33, 3, 0, 0];
        assert(out@ =~= new_header());
        push_syncsafe(&mut out, frame.len());
        append(&mut out, &frame);
        append(&mut out, &data);
        return out;
    }
    let end = end_of_tag(&data);
    let tag = slice_subrange(&data, 10, end);
    let ghost want = concat(replaced(frames(tag@), id@, frame@));
    // Frames before the insertion point, and those behind it.
    let mut head: Vec<u8> = Vec::new();
    let mut tail: Vec<u8> = Vec::new();
    let mut found = false;
    let mut pos: usize = 0;
    assert(tag@.skip(0) =~= tag@);
    assert(head@ + want =~= want);
    loop
        invariant
            pos <= tag@.len(),
            want == if found {
                head@ + frame@ + tail@ + concat(without(frames(tag@.skip(pos as int)), id@))
            } else {
                head@ + concat(replaced(frames(tag@.skip(pos as int)), id@, frame@))
            },
            !found ==> tail@.len() == 0,
        ensures
            want == head@ + frame@ + tail@,
        decreases tag@.len() - pos,
    {
        let ghost rest = tag@.skip(pos as int);
        let ghost head0 = head@;
        let ghost tail0 = tail@;
        match frame_len(tag, pos) {
            None => {
                proof {
                    lemma_concat_one(frame@);
                    assert(concat(Seq::<Seq<u8>>::empty()) =~= Seq::<u8>::empty());
                }
                assert(want =~= head@ + frame@ + tail@);
                break;
            },
            Some(n) => {
                let piece = slice_subrange(tag, pos, pos + n);
                proof {
                    let fs = frames(rest.skip(n as int));
                    assert(piece@ =~= rest.take(n as int));
                    assert(frame_id(piece@) =~= tag@.subrange(pos as int, pos + 4));
                    assert(rest.skip(n as int) =~= tag@.skip(pos + n));
                    assert(frames(rest) == seq![piece@] + fs);
                    assert((seq![piece@] + fs)[0] == piece@);
                    assert((seq![piece@] + fs).skip(1) =~= fs);
                    lemma_concat_cons(piece@, without(fs, id@));
                    lemma_concat_cons(frame@, without(fs, id@));
                    lemma_concat_cons(piece@, replaced(fs, id@, frame@));
                }
                if same_bytes(slice_subrange(tag, pos, pos + 4), id.as_slice()) {
                    if !found {
                        found = true;
                        assert(want =~= head@ + frame@ + tail@ + concat(
                            without(frames(tag@.skip(pos + n)), id@),
                        ));
                    }
                } else if found {
                    append(&mut tail, piece);
                    assert(want =~= head@ + frame@ + tail@ + concat(
                        without(frames(tag@.skip(pos + n)), id@),
                    ));
                } else {
                    append(&mut head, piece);
                    assert(want =~= head@ + concat(
                        replaced(frames(tag@.skip(pos + n)), id@, frame@),
                    ));
                }
                pos += n;
            },
        }
    }
    let mut content = head;
    append(&mut content, &frame);
    append(&mut content, &tail);
    assert(content@ == want);
    let mut out = copy_range(&data, 0, 6);
    push_syncsafe(&mut out, content.len());
    append(&mut out, &content);
    append(&mut out, slice_subrange(&data, end, data.len()));
    assert(out@ =~= with_content(data@, want));
    out
}

/// The identifiers of the frames that a trimmed tag keeps: TIT2, TPE1, APIC,
/// USLT, SYLT and TXXX.
pub open spec fn kept_ids() -> Seq<Seq<u8>> {
    seq![tit2(), tpe1(), apic(), uslt(), sylt(), txxx()]
}

/// `TIT2`, the title.
pub open spec fn tit2() -> Seq<u8> {
    seq![0x54u8, 0x49u8, 0x54u8, 0x32u8]
}

/// `TPE1`, the artist.
pub open spec fn tpe1() -> Seq<u8> {
    seq![0x54u8, 0x50u8, 0x45u8, 0x31u8]
}

/// `TALB`, the album.
pub open spec fn talb() -> Seq<u8> {
    seq![0x54u8, 0x41u8, 0x4cu8, 0x42u8]
}

/// `APIC`, an attached picture.
pub open spec fn apic() -> Seq<u8> {
    seq![0x41u8, 0x50u8, 0x49u8, 0x43u8]
}

/// `USLT`, unsynchronised lyrics.
pub open spec fn uslt() -> Seq<u8> {
    seq![0x55u8, 0x53u8, 0x4cu8, 0x54u8]
}

/// `SYLT`, synchronised lyrics.
pub open spec fn sylt() -> Seq<u8> {
    seq![0x53u8, 0x59u8, 0x4cu8, 0x54u8]
}

/// `TXXX`, user-defined text, which holds the lyrics.
pub open spec fn txxx() -> Seq<u8> {
    seq![0x54u8, 0x58u8, 0x58u8, 0x58u8]
}

/// The frames that a trimmed tag keeps, in their order.
pub open spec fn kept(fs: Seq<Seq<u8>>) -> Seq<Seq<u8>>
    decreases fs.len(),
{
    if fs.len() == 0 {
        Seq::empty()
    } else if kept_ids().contains(frame_id(fs[0])) {
        seq![fs[0]] + kept(fs.skip(1))
    } else {
        kept(fs.skip(1))
    }
}

/// The data with its tag trimmed: a fresh header and only the kept frames.
pub open spec fn trimmed_tag(data: Seq<u8>) -> Seq<u8> {
    let content = concat(kept(frames(tag_body(data))));
    new_header() + syncsafe(content.len() as int) + content
        + data.skip(tag_end(data))
}

/// Whether a trimmed tag keeps the frames with this identifier.
fn is_kept_id(id: &[u8]) -> (yes: bool)
    ensures
        yes == kept_ids().contains(id@),
{
    let ids: [[u8; 4]; 6] = [
        [0x54, 0x49, 0x54, 0x32],
        [0x54, 0x50, 0x45, 0x31],
        [0x41, 0x50, 0x49, 0x43],
        [0x55, 0x53, 0x4c, 0x54],
        [0x53, 0x59, 0x4c, 0x54],
        [0x54, 0x58, 0x58, 0x58],
    ];
    assert(ids@[0]@ =~= tit2() && ids@[1]@ =~= tpe1() && ids@[2]@ =~= apic() && ids@[3]@ =~= uslt()
        && ids@[4]@ =~= sylt() && ids@[5]@ =~= txxx());
    let ghost want = kept_ids();
    assert(forall|j: int| 0 <= j < 6 ==> #[trigger] ids@[j]@ == want[j]);
    let mut i: usize = 0;
    while i < 6
        invariant
            i <= 6,
            want == kept_ids(),
            forall|j: int| 0 <= j < 6 ==> #[trigger] ids@[j]@ == want[j],
            forall|j: int| 0 <= j < i ==> want[j] != id@,
        decreases 6 - i,
    {
        assert(ids@[i as int]@ == want[i as int]);
        if same_bytes(id, ids[i].as_slice()) {
            assert(want[i as int] == id@);
            return true;
        }
        i += 1;
    }
    false
}

/// Rewrites the tag so that it keeps only title, artist, picture and lyrics.
///
/// `None` means that the data stays as it is: it has no tag, or the tag does
/// not lie within it.
pub fn minimal_id3(data: &[u8]) -> (out: Option<Vec<u8>>)
    ensures
        match out {
            Some(new) => has_tag(data@) && tag_end(data@) <= data@.len() && new@ == trimmed_tag(data@),
            None => !has_tag(data@) || tag_end(data@) > data@.len(),
        },
{
    if !opens_with_tag(data) {
        return None;
    }
    let end = end_of_tag(data);
    if end > data.len() {
        return None;
    }
    let tag = slice_subrange(data, 10, end);
    let ghost want = concat(kept(frames(tag@)));
    let mut content: Vec<u8> = Vec::new();
    let mut pos: usize = 0;
    assert(tag@.skip(0) =~= tag@);
    assert(content@ + want =~= want);
    loop
        invariant
            pos <= tag@.len(),
            want == content@ + concat(kept(frames(tag@.skip(pos as int)))),
        ensures
            want == content@,
        decreases tag@.len() - pos,
    {
        let ghost rest = tag@.skip(pos as int);
        match frame_len(tag, pos) {
            None => {
                assert(concat(Seq::<Seq<u8>>::empty()) =~= Seq::<u8>::empty());
                assert(want =~= content@);
                break;
            },
            Some(n) => {
                let piece = slice_subrange(tag, pos, pos + n);
                proof {
                    let fs = frames(rest.skip(n as int));
                    assert(piece@ =~= rest.take(n as int));
                    assert(frame_id(piece@) =~= tag@.subrange(pos as int, pos + 4));
                    assert(rest.skip(n as int) =~= tag@.skip(pos + n));
                    assert(frames(rest) == seq![piece@] + fs);
                    assert((seq![piece@] + fs)[0] == piece@);
                    assert((seq![piece@] + fs).skip(1) =~= fs);
                    lemma_concat_cons(piece@, kept(fs));
                }
                if is_kept_id(slice_subrange(tag, pos, pos + 4)) {
                    append(&mut content, piece);
                    assert(want =~= content@ + concat(kept(frames(tag@.skip(pos + n)))));
                }
                pos += n;
            },
        }
    }
    let mut out: Vec<u8> = vec![0x49, 0x44, 0x33, 3, 0, 0];
    push_syncsafe(&mut out, content.len());
    append(&mut out, &content);
    append(&mut out, slice_subrange(data, end, data.len()));
    assert(out@ =~= trimmed_tag(data@));
    Some(out)
}

/// The body of the frame that holds the lyrics: UTF-16 with a byte order mark,
/// the description `LYRICS` with its terminator, then the text with CRLF line
/// ends.
pub open spec fn lyrics_body(text: Seq<char>) -> Seq<u8> {
    seq![1u8, 0xffu8, 0xfeu8] + utf16("LYRICS"@) + seq![0u8, 0u8, 0xffu8, 0xfeu8] + utf16(
        crlf(text),
    )
}

/// Builds the body of the frame that holds the lyrics.
pub fn lyrics_frame_body(text: &str) -> (body: Vec<u8>)
    ensures
        body@ == lyrics_body(text@),
{
    let mut body: Vec<u8> = vec![1, 0xff, 0xfe];
    assert(body@ =~= seq![1u8, 0xffu8, 0xfeu8]);
    push_utf16(&mut body, &chars_of("LYRICS"));
    let mark: [u8; 4] = [0, 0, 0xff, 0xfe];
    assert(mark@ =~= seq![0u8, 0u8, 0xffu8, 0xfeu8]);
    append(&mut body, &mark);
    push_utf16(&mut body, &to_crlf(&chars_of(text)));
    body
}

/// Stores the lyrics in a `TXXX` frame.
pub fn append_id3_lyrics(data: Vec<u8>, lyrics: &[u8]) -> (out: Vec<u8>)
    requires
        tag_fits(data@),
    ensures
        out@ == with_frame(data@, txxx(), lyrics_body(lossy_text(lyrics@))),
        tag_fits(out@),
{
    proof {
        lemma_with_frame_fits(data@, txxx(), lyrics_body(lossy_text(lyrics@)));
    }
    let body = lyrics_frame_body(&decode_lossy(lyrics));
    let id: [u8; 4] = [0x54, 0x58, 0x58, 0x58];
    assert(id@ =~= txxx());
    add_id3_frame(data, &id, &body)
}

/// The body of a text frame in UTF-8.
pub open spec fn text_body(value: Seq<char>) -> Seq<u8> {
    seq![3u8] + encode_utf8(value)
}

/// The data with title, artist and album stored in its tag.
pub open spec fn with_metadata(
    data: Seq<u8>,
    title: Seq<char>,
    artist: Seq<char>,
    album: Seq<char>,
) -> Seq<u8> {
    with_frame(
        with_frame(with_frame(data, tit2(), text_body(title)), tpe1(), text_body(artist)),
        talb(),
        text_body(album),
    )
}

fn text_frame_body(value: &str) -> (body: Vec<u8>)
    ensures
        body@ == text_body(value@),
{
    let mut body: Vec<u8> = vec![3];
    append(&mut body, value.as_bytes());
    assert(body@ =~= text_body(value@));
    body
}

/// Stores title, artist and album in the tag. The picture type is not used.
pub fn append_id3_metadata(
    data: Vec<u8>,
    title: &str,
    artist: &str,
    album: &str,
    pic_type: u8,
) -> (out: Vec<u8>)
    requires
        tag_fits(data@),
    ensures
        out@ == with_metadata(data@, title@, artist@, album@),
        tag_fits(out@),
{
    let id_title: [u8; 4] = [0x54, 0x49, 0x54, 0x32];
    let id_artist: [u8; 4] = [0x54, 0x50, 0x45, 0x31];
    let id_album: [u8; 4] = [0x54, 0x41, 0x4c, 0x42];
    assert(id_title@ =~= tit2());
    assert(id_artist@ =~= tpe1());
    assert(id_album@ =~= talb());
    let one = add_id3_frame(data, &id_title, &text_frame_body(title));
    let two = add_id3_frame(one, &id_artist, &text_frame_body(artist));
    add_id3_frame(two, &id_album, &text_frame_body(album))
}

/// The bytes that open a PNG image.
pub open spec fn png_marker() -> Seq<u8> {
    seq![0x89u8, 0x50u8, 0x4eu8, 0x47u8]
}

/// The MIME type of a cover: PNG by its marker, else JPEG.
pub open spec fn cover_mime(cover: Seq<u8>) -> Seq<char> {
    if begins_with(cover, png_marker()) {
        "image/png"@
    } else {
        "image/jpeg"@
    }
}

/// Whether the image opens with the PNG marker.
pub fn is_png(cover: &[u8]) -> (yes: bool)
    ensures
        yes == begins_with(cover@, png_marker()),
{
    let png: [u8; 4] = [0x89, 0x50, 0x4e, 0x47];
    assert(png@ =~= png_marker());
    starts_with(cover, &png)
}

/// The MIME type of a cover.
pub fn mime_of(cover: &[u8]) -> (mime: &'static str)
    ensures
        mime@ == cover_mime(cover@),
{
    if is_png(cover) {
        "image/png"
    } else {
        "image/jpeg"
    }
}

/// The body of a picture frame: text encoding, MIME type, front cover, empty
/// description, image.
pub open spec fn cover_body(cover: Seq<u8>) -> Seq<u8> {
    seq![0u8] + encode_utf8(cover_mime(cover)) + seq![0u8, 3u8, 0u8] + cover
}

/// Stores the cover in an `APIC` frame.
pub fn append_id3_cover(data: Vec<u8>, cover: &[u8]) -> (out: Vec<u8>)
    requires
        tag_fits(data@),
    ensures
        out@ == with_frame(data@, apic(), cover_body(cover@)),
        tag_fits(out@),
{
    proof {
        lemma_with_frame_fits(data@, apic(), cover_body(cover@));
    }
    let mut body: Vec<u8> = vec![0];
    append(&mut body, mime_of(cover).as_bytes());
    body.push(0);
    body.push(3);
    body.push(0);
    append(&mut body, cover);
    assert(body@ =~= cover_body(cover@));
    let id: [u8; 4] = [0x41, 0x50, 0x49, 0x43];
    assert(id@ =~= apic());
    add_id3_frame(data, &id, &body)
}

proof fn lemma_syncsafe_read(n: int)
    requires
        0 <= n,
    ensures
        ((n / 2097152) % 128) * 2097152 + ((n / 16384) % 128) * 16384 + ((n / 128) % 128) * 128 + n
            % 128 == n % 268435456,
{
    let a = n / 128;
    let b = a / 128;
    let c = b / 128;
    let d = c / 128;
    assert(n / 16384 == b);
    assert(n / 2097152 == c);
    assert(n / 268435456 == d);
    assert(n == a * 128 + n % 128);
    assert(a == b * 128 + a % 128);
    assert(b == c * 128 + b % 128);
    assert(c == d * 128 + c % 128);
}

/// What the header of data with exchanged tag content says.
pub proof fn lemma_with_content_header(data: Seq<u8>, content: Seq<u8>)
    requires
        has_tag(data),
        tag_fits(data),
    ensures
        ({
            let out = with_content(data, content);
            &&& has_tag(out)
            &&& tag_size(out) == content.len() % 268435456
            &&& out.len() == 10 + content.len() + data.len() - tag_end(data)
            &&& out.subrange(10, 10 + content.len() as int) == content
            &&& out.skip(10 + content.len() as int) == data.skip(tag_end(data))
            &&& content.len() < 268435456 ==> tag_fits(out) && tag_body(out) == content && out.skip(
                tag_end(out),
            ) == data.skip(tag_end(data))
        }),
{
    reveal(tag_size);
    let out = with_content(data, content);
    let n = content.len() as int;
    lemma_syncsafe_read(n);
    assert(out.take(3) =~= data.take(3));
    assert(out.len() >= 10);
    assert(out[6] == syncsafe(n)[0] && out[7] == syncsafe(n)[1] && out[8] == syncsafe(n)[2]
        && out[9] == syncsafe(n)[3]);
    assert(out.subrange(10, 10 + n) =~= content);
    assert(out.skip(10 + n) =~= data.skip(tag_end(data)));
}

/// The data itself where it has a tag, else the data behind an empty tag.
pub open spec fn with_tag(data: Seq<u8>) -> Seq<u8> {
    if has_tag(data) {
        data
    } else {
        new_header() + syncsafe(0) + data
    }
}

/// Inserting a frame into data without a tag is inserting it into an empty tag
/// in front of the data.
pub proof fn lemma_with_tag(data: Seq<u8>, id: Seq<u8>, body: Seq<u8>)
    requires
        tag_fits(data),
    ensures
        has_tag(with_tag(data)),
        tag_fits(with_tag(data)),
        with_frame(with_tag(data), id, body) == with_frame(data, id, body),
        !has_tag(data) ==> {
            &&& tag_end(with_tag(data)) == 10
            &&& with_tag(data).skip(10) == data
            &&& frames(tag_body(with_tag(data))) == Seq::<Seq<u8>>::empty()
        },
{
    if !has_tag(data) {
        reveal(tag_size);
        let base = with_tag(data);
        let frame = make_frame(id, body);
        assert(base.take(3) =~= marker());
        assert(base.take(6) =~= new_header());
        assert(base.skip(10) =~= data);
        assert(tag_body(base) =~= Seq::<u8>::empty());
        assert(frames(tag_body(base)) == Seq::<Seq<u8>>::empty());
        lemma_concat_one(frame);
        assert(replaced(frames(tag_body(base)), id, frame) == seq![frame]);
    }
}

/// A tag that lies within its data does so after a frame was inserted.
pub proof fn lemma_with_frame_fits(data: Seq<u8>, id: Seq<u8>, body: Seq<u8>)
    requires
        tag_fits(data),
    ensures
        has_tag(with_frame(data, id, body)),
        tag_fits(with_frame(data, id, body)),
{
    let base = with_tag(data);
    lemma_with_tag(data, id, body);
    lemma_with_content_header(
        base,
        concat(replaced(frames(tag_body(base)), id, make_frame(id, body))),
    );
}

} // verus!
