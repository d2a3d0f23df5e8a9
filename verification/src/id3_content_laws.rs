//! What tags and their frames say when they are read again.

use vstd::prelude::*;
use vstd::utf8::{
    decode_utf8, encode_utf8, encode_utf8_decode_utf8, encode_utf8_valid_utf8, valid_utf8,
};
use crate::bytes::{be32, be32_at, concat, lemma_be32_read};
use crate::flac_content_laws::{image_type, is_png_image, lemma_png};
use crate::id3::{
    cover_body, frame_id, frames, has_tag, kept, kept_ids, lemma_with_tag, lyrics_body, make_frame,
    marker, replaced, syncsafe, tag_end, tag_fits, tag_size, text_body, with_content, with_frame,
    with_tag, without,
};
use crate::id3_laws::{behind_tag, law_frame_is_replaced, new_content, tag_frames};
use crate::text::{crlf, utf16};
use crate::text_laws::{law_utf16_in_parts, law_utf16_of_a_character};

verus! {

broadcast use crate::bytes::number_lengths;

/// A frame as it is stored: its identifier, the length of its content, two zero
/// bytes, and the content.
pub proof fn law_frame_layout(id: Seq<u8>, body: Seq<u8>)
    requires
        id.len() == 4,
        body.len() < 4294967296,
    ensures
        ({
            let f = make_frame(id, body);
            &&& f.len() == 10 + body.len()
            &&& f.take(4) == id
            &&& be32_at(f, 4) == body.len()
            &&& f[8] == 0
            &&& f[9] == 0
            &&& f.skip(10) == body
        }),
{
    let f = make_frame(id, body);
    lemma_be32_read(body.len() as int);
    assert(f.take(4) =~= id);
    assert(be32_at(f, 4) == be32_at(be32(body.len() as int), 0));
    assert(f.skip(10) =~= body);
}

/// A text frame that is read again: UTF-8, and the whole text.
pub proof fn law_text_frame_is_read_back(value: Seq<char>)
    ensures
        ({
            let b = text_body(value);
            &&& b.len() >= 1
            &&& b[0] == 3
            &&& valid_utf8(b.skip(1))
            &&& decode_utf8(b.skip(1)) == value
        }),
{
    assert(text_body(value).skip(1) =~= encode_utf8(value));
    encode_utf8_valid_utf8(value);
    encode_utf8_decode_utf8(value);
}

/// A picture frame that is read again: Latin text, a type that is PNG exactly where
/// the image begins with the PNG marker and JPEG otherwise, a front cover without
/// description, and the whole image.
pub proof fn law_picture_frame_is_read_back(cover: Seq<u8>)
    ensures
        ({
            let b = cover_body(cover);
            let n = b.len() - 4 - cover.len();
            let mime = b.subrange(1, 1 + n);
            &&& n >= 0
            &&& b[0] == 0
            &&& valid_utf8(mime)
            &&& decode_utf8(mime) == if is_png_image(cover) {
                "image/png"@
            } else {
                "image/jpeg"@
            }
            &&& b[1 + n] == 0
            &&& b[2 + n] == 3
            &&& b[3 + n] == 0
            &&& b.skip(4 + n) == cover
        }),
{
    lemma_png(cover);
    let mime = encode_utf8(image_type(cover));
    let b = cover_body(cover);
    let n = mime.len() as int;
    assert(b.len() == 4 + n + cover.len());
    assert(b.subrange(1, 1 + n) =~= mime);
    assert(b.skip(4 + n) =~= cover);
}

proof fn lemma_ascii_units(c: char)
    requires
        (c as int) < 128,
    ensures
        utf16(seq![c]) == seq![(c as int) as u8, 0u8],
{
    law_utf16_of_a_character(c);
    assert(utf16(seq![c]) =~= seq![(c as int) as u8, 0u8]);
}

proof fn lemma_lyrics_name()
    ensures
        utf16("LYRICS"@) == seq![76u8, 0, 89, 0, 82, 0, 73, 0, 67, 0, 83, 0],
{
    reveal_strlit("LYRICS");
    let (l, y, r, i, c, s) = (seq!['L'], seq!['Y'], seq!['R'], seq!['I'], seq!['C'], seq!['S']);
    assert("LYRICS"@ =~= l + y + r + i + c + s);
    lemma_ascii_units('L');
    lemma_ascii_units('Y');
    lemma_ascii_units('R');
    lemma_ascii_units('I');
    lemma_ascii_units('C');
    lemma_ascii_units('S');
    law_utf16_in_parts(l, y);
    law_utf16_in_parts(l + y, r);
    law_utf16_in_parts(l + y + r, i);
    law_utf16_in_parts(l + y + r + i, c);
    law_utf16_in_parts(l + y + r + i + c, s);
    assert(utf16("LYRICS"@) =~= seq![76u8, 0, 89, 0, 82, 0, 73, 0, 67, 0, 83, 0]);
}

/// A lyrics frame that is read again: UTF-16 with its mark, the name `LYRICS` and
/// its end, another mark, and the whole lyrics in UTF-16 with carriage returns.
pub proof fn law_lyrics_frame_is_read_back(text: Seq<char>)
    ensures
        ({
            let b = lyrics_body(text);
            &&& b.take(19) == seq![
                1u8,
                255,
                254,
                76,
                0,
                89,
                0,
                82,
                0,
                73,
                0,
                67,
                0,
                83,
                0,
                0,
                0,
                255,
                254,
            ]
            &&& b.skip(19) == utf16(crlf(text))
        }),
{
    lemma_lyrics_name();
    let b = lyrics_body(text);
    assert(b.take(19) =~= seq![
        1u8,
        255,
        254,
        76,
        0,
        89,
        0,
        82,
        0,
        73,
        0,
        67,
        0,
        83,
        0,
        0,
        0,
        255,
        254,
    ]);
    assert(b.skip(19) =~= utf16(crlf(text)));
}

/// Whether a frame is one of those that stay: `TIT2`, `TPE1`, `APIC`, `USLT`,
/// `SYLT` or `TXXX`.
pub open spec fn stays(frame: Seq<u8>) -> bool {
    let id = frame.take(4);
    ||| id == seq![84u8, 73, 84, 50]
    ||| id == seq![84u8, 80, 69, 49]
    ||| id == seq![65u8, 80, 73, 67]
    ||| id == seq![85u8, 83, 76, 84]
    ||| id == seq![83u8, 89, 76, 84]
    ||| id == seq![84u8, 88, 88, 88]
}

proof fn lemma_kept_id(frame: Seq<u8>)
    ensures
        kept_ids().contains(frame_id(frame)) <==> stays(frame),
{
    let ids = kept_ids();
    assert(ids[0] =~= seq![84u8, 73, 84, 50]);
    assert(ids[1] =~= seq![84u8, 80, 69, 49]);
    assert(ids[2] =~= seq![65u8, 80, 73, 67]);
    assert(ids[3] =~= seq![85u8, 83, 76, 84]);
    assert(ids[4] =~= seq![83u8, 89, 76, 84]);
    assert(ids[5] =~= seq![84u8, 88, 88, 88]);
    assert(ids.len() == 6);
    let id = frame_id(frame);
    if stays(frame) {
        assert(id == ids[0] || id == ids[1] || id == ids[2] || id == ids[3] || id == ids[4] || id
            == ids[5]);
    }
    if ids.contains(id) {
        let k = choose|k: int| 0 <= k < ids.len() && ids[k] == id;
        assert(k == 0 || k == 1 || k == 2 || k == 3 || k == 4 || k == 5);
    }
}

/// Of trimmed frames just the titles, artists, pictures and lyrics stay, and every
/// other one is gone. Tags are trimmed frame by frame, so the order stays.
pub proof fn law_only_six_frames_stay(a: Seq<Seq<u8>>, b: Seq<Seq<u8>>, one: Seq<u8>)
    ensures
        kept(a + b) == kept(a) + kept(b),
        kept(seq![one]) == if stays(one) {
            seq![one]
        } else {
            Seq::<Seq<u8>>::empty()
        },
        forall|i: int| 0 <= i < kept(a).len() ==> stays(#[trigger] kept(a)[i]),
    decreases a.len(),
{
    let none = Seq::<Seq<u8>>::empty();
    lemma_kept_id(one);
    assert(seq![one].skip(1) =~= none);
    assert(kept(none) == none);
    assert(seq![one] + none =~= seq![one]);
    if a.len() == 0 {
        assert(a + b =~= b);
        assert(kept(a) + kept(b) =~= kept(b));
    } else {
        let rest = a.skip(1);
        lemma_kept_id(a[0]);
        law_only_six_frames_stay(rest, b, one);
        assert((a + b).skip(1) =~= rest + b);
        assert((a + b)[0] == a[0]);
        let tail = kept(rest);
        assert(seq![a[0]] + (tail + kept(b)) =~= (seq![a[0]] + tail) + kept(b));
        assert forall|i: int| 0 <= i < kept(a).len() implies stays(#[trigger] kept(a)[i]) by {
            if stays(a[0]) {
                if i > 0 {
                    assert(kept(a)[i] == tail[i - 1]);
                }
            } else {
                assert(kept(a)[i] == tail[i]);
            }
        }
    }
}

/// Frames that are stored one after the other are read one by one, up to padding,
/// which begins with a zero byte, or to a rest that is too short.
pub proof fn law_frames_are_read(list: Seq<Seq<u8>>, rest: Seq<u8>)
    requires
        forall|i: int|
            0 <= i < list.len() ==> (#[trigger] list[i]).len() >= 10 && list[i][0] != 0
                && list[i].len() == 10 + be32_at(list[i], 4),
        rest.len() < 10 || rest[0] == 0 || 10 + be32_at(rest, 4) > rest.len(),
    ensures
        frames(concat(list) + rest) == list,
    decreases list.len(),
{
    let all = concat(list) + rest;
    if list.len() == 0 {
        assert(all =~= rest);
        assert(frames(all) =~= list);
    } else {
        let f = list[0];
        let tail = list.skip(1);
        assert forall|i: int| 0 <= i < tail.len() implies (#[trigger] tail[i]).len() >= 10 && tail[i][0]
            != 0 && tail[i].len() == 10 + be32_at(tail[i], 4) by {
            assert(tail[i] == list[i + 1]);
        }
        law_frames_are_read(tail, rest);
        assert(all =~= f + (concat(tail) + rest));
        assert(be32_at(all, 4) == be32_at(f, 4));
        assert(all.take(f.len() as int) =~= f);
        assert(all.skip(f.len() as int) =~= concat(tail) + rest);
        assert(seq![f] + tail =~= list);
    }
}

/// Which frames are left out when one is replaced: those of its name, and no other.
pub proof fn law_without_a_name(a: Seq<Seq<u8>>, b: Seq<Seq<u8>>, one: Seq<u8>, id: Seq<u8>)
    ensures
        without(a + b, id) == without(a, id) + without(b, id),
        without(seq![one], id) == if one.take(4) == id {
            Seq::<Seq<u8>>::empty()
        } else {
            seq![one]
        },
    decreases a.len(),
{
    let none = Seq::<Seq<u8>>::empty();
    assert(seq![one].skip(1) =~= none);
    assert(without(none, id) == none);
    assert(seq![one] + none =~= seq![one]);
    if a.len() == 0 {
        assert(a + b =~= b);
        assert(without(a, id) + without(b, id) =~= without(b, id));
    } else {
        law_without_a_name(a.skip(1), b, one, id);
        assert((a + b).skip(1) =~= a.skip(1) + b);
        assert((a + b)[0] == a[0]);
        assert(seq![a[0]] + (without(a.skip(1), id) + without(b, id)) =~= (seq![a[0]] + without(
            a.skip(1),
            id,
        )) + without(b, id));
    }
}

proof fn lemma_replaced_in_place(front: Seq<Seq<u8>>, old: Seq<u8>, back: Seq<Seq<u8>>, id: Seq<u8>, frame: Seq<u8>)
    requires
        forall|i: int| 0 <= i < front.len() ==> (#[trigger] front[i]).take(4) != id,
    ensures
        old.take(4) == id ==> replaced(front + seq![old] + back, id, frame) == front + seq![frame]
            + without(back, id),
        replaced(front, id, frame) == front + seq![frame],
    decreases front.len(),
{
    let all = front + seq![old] + back;
    let none = Seq::<Seq<u8>>::empty();
    if front.len() == 0 {
        assert(all =~= seq![old] + back);
        assert(all[0] == old);
        assert(all.skip(1) =~= back);
        assert(front + seq![frame] + without(back, id) =~= seq![frame] + without(back, id));
        assert(front + seq![frame] =~= seq![frame]);
    } else {
        let rest = front.skip(1);
        assert forall|i: int| 0 <= i < rest.len() implies (#[trigger] rest[i]).take(4) != id by {
            assert(rest[i] == front[i + 1]);
        }
        assert(front[0].take(4) != id);
        lemma_replaced_in_place(rest, old, back, id, frame);
        assert(all[0] == front[0]);
        assert(all.skip(1) =~= rest + seq![old] + back);
        assert(seq![front[0]] + (rest + seq![frame] + without(back, id)) =~= front + seq![frame]
            + without(back, id));
        assert(seq![front[0]] + (rest + seq![frame]) =~= front + seq![frame]);
    }
}

/// Where a frame goes: to the place of the first frame of its name, and every later
/// one of that name is left out; at the end, where there is none.
pub proof fn law_frame_keeps_its_place(
    data: Seq<u8>,
    id: Seq<u8>,
    body: Seq<u8>,
    front: Seq<Seq<u8>>,
    old_frame: Seq<u8>,
    back: Seq<Seq<u8>>,
)
    requires
        tag_fits(data),
        id.len() == 4,
        id[0] != 0,
        new_content(data, id, body).len() < 268435456,
        forall|i: int| 0 <= i < front.len() ==> (#[trigger] front[i]).take(4) != id,
        old_frame.take(4) == id,
    ensures
        ({
            let out = tag_frames(with_frame(data, id, body));
            let new = make_frame(id, body);
            &&& tag_frames(data) == front + seq![old_frame] + back ==> out == front + seq![new]
                + without(back, id)
            &&& tag_frames(data) == front ==> out == front.push(new)
        }),
{
    law_frame_is_replaced(data, id, body);
    lemma_replaced_in_place(front, old_frame, back, id, make_frame(id, body));
    assert(front + seq![make_frame(id, body)] =~= front.push(make_frame(id, body)));
}

/// How a tag declares its size: seven bits in each of four bytes, the highest
/// first, and no byte of them above 127.
pub proof fn law_sizes_are_syncsafe(n: int, data: Seq<u8>)
    requires
        0 <= n < 268435456,
    ensures
        ({
            let b = syncsafe(n);
            &&& b.len() == 4
            &&& b[0] < 128 && b[1] < 128 && b[2] < 128 && b[3] < 128
            &&& n == b[0] * 2097152 + b[1] * 16384 + b[2] * 128 + b[3]
        }),
        data.len() >= 10 && data.subrange(6, 10) == syncsafe(n) ==> tag_size(data) == n,
{
    reveal(tag_size);
    assert(n / 128 == (n / 16384) * 128 + (n / 128) % 128);
    assert(n / 16384 == (n / 2097152) * 128 + (n / 16384) % 128);
    let b = syncsafe(n);
    if data.len() >= 10 && data.subrange(6, 10) == b {
        let part = data.subrange(6, 10);
        assert(data[6] == part[0] && data[7] == part[1] && data[8] == part[2] && data[9] == part[3]);
    }
}

/// The tag after a frame was inserted: the header of the old tag, or a new one of
/// version 3, then a size that covers the frames, then the frames and nothing else,
/// then what followed the tag.
pub proof fn law_tag_layout(data: Seq<u8>, id: Seq<u8>, body: Seq<u8>)
    requires
        tag_fits(data),
        id.len() == 4,
        id[0] != 0,
        new_content(data, id, body).len() < 268435456,
    ensures
        ({
            let out = with_frame(data, id, body);
            let list = tag_frames(out);
            &&& out.take(6) == if has_tag(data) {
                data.take(6)
            } else {
                seq![73u8, 68, 51, 3, 0, 0]
            }
            &&& out.subrange(6, 10) == syncsafe(concat(list).len() as int)
            &&& out.skip(10) == concat(list) + behind_tag(data)
        }),
{
    let base = with_tag(data);
    lemma_with_tag(data, id, body);
    law_frame_is_replaced(data, id, body);
    let content = new_content(data, id, body);
    assert(tag_frames(base) == tag_frames(data));
    assert(with_frame(data, id, body) == with_content(base, content));
    lemma_content_layout(base, content);
    lemma_base_header(data);
}

proof fn lemma_base_header(data: Seq<u8>)
    requires
        tag_fits(data),
    ensures
        with_tag(data).take(6) == if has_tag(data) {
            data.take(6)
        } else {
            seq![73u8, 68, 51, 3, 0, 0]
        },
        with_tag(data).skip(tag_end(with_tag(data))) == behind_tag(data),
{
    if !has_tag(data) {
        lemma_with_tag(data, Seq::empty(), Seq::empty());
        assert(with_tag(data).take(6) =~= seq![73u8, 68, 51, 3, 0, 0]);
    }
}

proof fn lemma_content_layout(base: Seq<u8>, content: Seq<u8>)
    requires
        has_tag(base),
        tag_fits(base),
    ensures
        ({
            let out = with_content(base, content);
            &&& out.take(6) == base.take(6)
            &&& out.subrange(6, 10) == syncsafe(content.len() as int)
            &&& out.skip(10) == content + base.skip(tag_end(base))
        }),
{
    let out = with_content(base, content);
    assert(out.take(6) =~= base.take(6));
    assert(out.subrange(6, 10) =~= syncsafe(content.len() as int));
    assert(out.skip(10) =~= content + base.skip(tag_end(base)));
}

/// What counts as a tag: the letters `ID3` and a header of ten bytes.
pub proof fn law_tags_open_with_their_letters(data: Seq<u8>)
    ensures
        has_tag(data) <==> data.len() >= 10 && data[0] == 73 && data[1] == 68 && data[2] == 51,
{
    let m = marker();
    assert(m.len() == 3 && m[0] == 73 && m[1] == 68 && m[2] == 51);
    if data.len() >= 10 {
        let t = data.take(3);
        assert(t[0] == data[0] && t[1] == data[1] && t[2] == data[2]);
        if data[0] == 73 && data[1] == 68 && data[2] == 51 {
            assert(t =~= m);
        }
    }
}

} // verus!
