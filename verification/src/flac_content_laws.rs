//! What FLAC comments and pictures say when they are read again.

use vstd::prelude::*;
use vstd::utf8::{
    decode_utf8, encode_utf8, encode_utf8_decode_utf8, encode_utf8_valid_utf8, valid_utf8,
};
use crate::bytes::{
    be32, be32_at, begins_with, first_index, le32, le32_at, lemma_be32_read, lemma_first_index,
    lemma_le32_at,
};
use crate::flac::{
    comment_payload, comments, encoded, entry_keys, essential, has_key, key_of, lyrics_entry,
    merged, metadata_entries, others, packed, picture_payload,
};
use crate::id3::png_marker;
use crate::text::{lossy_text, same_ignoring_case};

verus! {

broadcast use crate::bytes::number_lengths;

/// Whether an image is a PNG: it begins with a byte above ASCII and `PNG`.
pub open spec fn is_png_image(image: Seq<u8>) -> bool {
    image.len() >= 4 && image[0] == 137 && image[1] == 80 && image[2] == 78 && image[3] == 71
}

/// The MIME type of an image.
pub open spec fn image_type(image: Seq<u8>) -> Seq<char> {
    if is_png_image(image) {
        "image/png"@
    } else {
        "image/jpeg"@
    }
}

/// The PNG marker decides the type of a cover.
pub proof fn lemma_png(image: Seq<u8>)
    ensures
        begins_with(image, png_marker()) <==> is_png_image(image),
        crate::id3::cover_mime(image) == image_type(image),
        valid_utf8(encode_utf8(image_type(image))),
        decode_utf8(encode_utf8(image_type(image))) == image_type(image),
{
    encode_utf8_valid_utf8(image_type(image));
    encode_utf8_decode_utf8(image_type(image));
    let m = png_marker();
    assert(m[0] == 137 && m[1] == 80 && m[2] == 78 && m[3] == 71 && m.len() == 4);
    if is_png_image(image) {
        assert(image.take(4) =~= m);
    } else if image.len() >= 4 && image.take(4) == m {
        assert(image[0] == image.take(4)[0] && image[1] == image.take(4)[1] && image[2] == image.take(
            4,
        )[2] && image[3] == image.take(4)[3]);
    }
}

proof fn lemma_be32_at(s: Seq<u8>, p: int, n: int)
    requires
        0 <= p,
        p + 4 <= s.len(),
        0 <= n < 4294967296,
        s.subrange(p, p + 4) == be32(n),
    ensures
        be32_at(s, p) == n,
{
    lemma_be32_read(n);
    let part = s.subrange(p, p + 4);
    assert(part[0] == s[p] && part[1] == s[p + 1] && part[2] == s[p + 2] && part[3] == s[p + 3]);
}

proof fn lemma_picture_parts(mime: Seq<u8>, cover: Seq<u8>, p: Seq<u8>)
    requires
        p == be32(3) + be32(mime.len() as int) + mime + be32(0) + be32(0) + be32(0) + be32(0) + be32(
            0,
        ) + be32(cover.len() as int) + cover,
    ensures
        ({
            let n = mime.len() as int;
            &&& p.len() == 32 + n + cover.len()
            &&& p.subrange(0, 4) == be32(3)
            &&& p.subrange(4, 8) == be32(n)
            &&& p.subrange(8, 8 + n) == mime
            &&& p.subrange(8 + n, 12 + n) == be32(0)
            &&& p.subrange(12 + n, 16 + n) == be32(0)
            &&& p.subrange(16 + n, 20 + n) == be32(0)
            &&& p.subrange(20 + n, 24 + n) == be32(0)
            &&& p.subrange(24 + n, 28 + n) == be32(0)
            &&& p.subrange(28 + n, 32 + n) == be32(cover.len() as int)
            &&& p.skip(32 + n) == cover
        }),
{
    let n = mime.len() as int;
    assert(p.subrange(0, 4) =~= be32(3));
    assert(p.subrange(4, 8) =~= be32(n));
    assert(p.subrange(8, 8 + n) =~= mime);
    assert(p.subrange(8 + n, 12 + n) =~= be32(0));
    assert(p.subrange(12 + n, 16 + n) =~= be32(0));
    assert(p.subrange(16 + n, 20 + n) =~= be32(0));
    assert(p.subrange(20 + n, 24 + n) =~= be32(0));
    assert(p.subrange(24 + n, 28 + n) =~= be32(0));
    assert(p.subrange(28 + n, 32 + n) =~= be32(cover.len() as int));
    assert(p.skip(32 + n) =~= cover);
}

/// A picture payload that is read again: a front cover, whose type behind its
/// length is PNG exactly where the image begins with the PNG marker and JPEG
/// otherwise, without description, size or colours, and with the whole image
/// behind its own length.
pub proof fn law_picture_is_read_back(cover: Seq<u8>)
    requires
        cover.len() < 4294967296,
    ensures
        ({
            let p = picture_payload(cover);
            let n = be32_at(p, 4);
            let mime = p.subrange(8, 8 + n);
            &&& p.len() == 32 + n + cover.len()
            &&& be32_at(p, 0) == 3
            &&& valid_utf8(mime)
            &&& decode_utf8(mime) == if is_png_image(cover) {
                "image/png"@
            } else {
                "image/jpeg"@
            }
            &&& be32_at(p, 8 + n) == 0
            &&& be32_at(p, 12 + n) == 0
            &&& be32_at(p, 16 + n) == 0
            &&& be32_at(p, 20 + n) == 0
            &&& be32_at(p, 24 + n) == 0
            &&& be32_at(p, 28 + n) == cover.len()
            &&& p.skip(32 + n) == cover
        }),
{
    let p = picture_payload(cover);
    let mime = encode_utf8(image_type(cover));
    let n = mime.len() as int;
    lemma_png(cover);
    lemma_mime_is_short(cover);
    lemma_picture_parts(mime, cover, p);
    lemma_be32_at(p, 0, 3);
    lemma_be32_at(p, 4, n);
    lemma_be32_at(p, 8 + n, 0);
    lemma_be32_at(p, 12 + n, 0);
    lemma_be32_at(p, 16 + n, 0);
    lemma_be32_at(p, 20 + n, 0);
    lemma_be32_at(p, 24 + n, 0);
    lemma_be32_at(p, 28 + n, cover.len() as int);
}

proof fn lemma_encoded_length(text: Seq<char>)
    ensures
        text.len() <= encode_utf8(text).len() <= 4 * text.len(),
    decreases text.len(),
{
    if text.len() > 0 {
        lemma_encoded_length(text.drop_first());
    }
}

proof fn lemma_mime_is_short(cover: Seq<u8>)
    ensures
        encode_utf8(image_type(cover)).len() <= 40,
{
    reveal_strlit("image/png");
    reveal_strlit("image/jpeg");
    lemma_encoded_length(image_type(cover));
}

/// The part of a comment before its first equals sign; all of it where there is
/// none.
pub open spec fn before_equals(text: Seq<char>) -> Seq<char> {
    text.take(first_index(text, '='))
}

/// The key of a text that is written as key, equals sign and value is the key, if
/// the key holds no equals sign; a text without one is its own key.
pub proof fn law_key_of_a_comment(key: Seq<char>, value: Seq<char>)
    requires
        !key.contains('='),
    ensures
        before_equals(key + seq!['='] + value) == key,
        before_equals(key) == key,
        key_of(key + seq!['='] + value) == key,
        key_of(key) == key,
{
    let all = key + seq!['='] + value;
    let n = key.len() as int;
    assert forall|j: int| 0 <= j < n implies key[j] != '=' by {
        assert(key.contains(key[j]));
    }
    assert forall|j: int| 0 <= j < n implies all[j] != '=' by {
        assert(all[j] == key[j]);
    }
    lemma_first_index(all, '=', n);
    lemma_first_index(key, '=', n);
    assert(all.take(n) =~= key);
    assert(key.take(n) =~= key);
}

/// Whether a comment is one of the three that stay.
pub open spec fn stays(comment: Seq<u8>) -> bool {
    let key = before_equals(lossy_text(comment));
    ||| same_ignoring_case(key, "TITLE"@)
    ||| same_ignoring_case(key, "ARTIST"@)
    ||| same_ignoring_case(key, "LYRICS"@)
}

/// Of trimmed comments just those stay whose key is title, artist or lyrics, in
/// any case of its letters, and every other one is gone. Lists are trimmed comment
/// by comment, so the order stays.
pub proof fn law_only_three_keys_stay(a: Seq<Seq<u8>>, b: Seq<Seq<u8>>, one: Seq<u8>)
    ensures
        essential(a + b) == essential(a) + essential(b),
        essential(seq![one]) == if stays(one) {
            seq![one]
        } else {
            Seq::<Seq<u8>>::empty()
        },
        forall|i: int| 0 <= i < essential(a).len() ==> stays(#[trigger] essential(a)[i]),
        forall|i: int|
            0 <= i < a.len() && stays(#[trigger] a[i]) ==> essential(a).contains(a[i]),
    decreases a.len(),
{
    let none = Seq::<Seq<u8>>::empty();
    assert(seq![one].skip(1) =~= none);
    assert(essential(none) == none);
    assert(seq![one] + none =~= seq![one]);
    if a.len() == 0 {
        assert(a + b =~= b);
        assert(essential(a) + essential(b) =~= essential(b));
    } else {
        let rest = a.skip(1);
        law_only_three_keys_stay(rest, b, one);
        assert((a + b).skip(1) =~= rest + b);
        assert((a + b)[0] == a[0]);
        let tail = essential(rest);
        if stays(a[0]) {
            assert(seq![a[0]] + (tail + essential(b)) =~= (seq![a[0]] + tail) + essential(b));
            assert(essential(a) == seq![a[0]] + tail);
            assert(essential(a)[0] == a[0]);
        }
        assert forall|i: int| 0 <= i < essential(a).len() implies stays(
            #[trigger] essential(a)[i],
        ) by {
            if stays(a[0]) {
                if i > 0 {
                    assert(essential(a)[i] == tail[i - 1]);
                }
            } else {
                assert(essential(a)[i] == tail[i]);
            }
        }
        assert forall|i: int| 0 <= i < a.len() && stays(#[trigger] a[i]) implies essential(
            a,
        ).contains(a[i]) by {
            if i > 0 {
                assert(rest[i - 1] == a[i]);
                assert(tail.contains(a[i]));
                let k = choose|k: int| 0 <= k < tail.len() && tail[k] == a[i];
                if stays(a[0]) {
                    assert(essential(a)[k + 1] == a[i]);
                } else {
                    assert(essential(a)[k] == a[i]);
                }
            }
        }
    }
}

/// Whether a comment makes way for the entries: one of them has its key, in any
/// case.
pub open spec fn makes_way(comment: Seq<u8>, entries: Seq<Seq<char>>) -> bool {
    exists|i: int|
        0 <= i < entries.len() && (#[trigger] entries[i]).contains('=') && same_ignoring_case(
            before_equals(entries[i]),
            before_equals(lossy_text(comment)),
        )
}

proof fn lemma_has_key(entries: Seq<Seq<char>>, key: Seq<char>)
    ensures
        has_key(entry_keys(entries), key) <==> exists|i: int|
            0 <= i < entries.len() && (#[trigger] entries[i]).contains('=') && same_ignoring_case(
                before_equals(entries[i]),
                key,
            ),
    decreases entries.len(),
{
    if entries.len() > 0 {
        let shorter = entries.drop_last();
        let last = entries.last();
        let keys = entry_keys(shorter);
        lemma_has_key(shorter, key);
        assert forall|i: int| 0 <= i < shorter.len() implies shorter[i] == #[trigger] entries[i] by {}
        if has_key(entry_keys(entries), key) {
            let k = choose|k: int|
                0 <= k < entry_keys(entries).len() && same_ignoring_case(
                    #[trigger] entry_keys(entries)[k],
                    key,
                );
            if k < keys.len() {
                assert(entry_keys(entries)[k] == keys[k]);
                assert(has_key(keys, key));
                let i = choose|i: int|
                    0 <= i < shorter.len() && (#[trigger] shorter[i]).contains('=')
                        && same_ignoring_case(before_equals(shorter[i]), key);
                assert(entries[i] == shorter[i]);
            } else {
                assert(entries[entries.len() - 1].contains('='));
            }
        }
        if exists|i: int|
            0 <= i < entries.len() && (#[trigger] entries[i]).contains('=') && same_ignoring_case(
                before_equals(entries[i]),
                key,
            ) {
            let i = choose|i: int|
                0 <= i < entries.len() && (#[trigger] entries[i]).contains('=') && same_ignoring_case(
                    before_equals(entries[i]),
                    key,
                );
            if i < shorter.len() {
                assert(shorter[i] == entries[i]);
                assert(has_key(keys, key));
                let k = choose|k: int|
                    0 <= k < keys.len() && same_ignoring_case(#[trigger] keys[k], key);
                assert(entry_keys(entries)[k] == keys[k]);
            } else {
                assert(entry_keys(entries)[keys.len() as int] == key_of(last));
            }
        }
    }
}

/// Merging entries: the entries stand at the end, in their order and in UTF-8.
/// Before them stand the old comments, in their order, without those that make way.
pub proof fn law_merged_comments(
    a: Seq<Seq<u8>>,
    b: Seq<Seq<u8>>,
    one: Seq<u8>,
    entries: Seq<Seq<char>>,
)
    ensures
        ({
            let front = |list: Seq<Seq<u8>>|
                merged(list, entries).take(merged(list, entries).len() - entries.len());
            &&& merged(a, entries).len() >= entries.len()
            &&& forall|i: int|
                0 <= i < entries.len() ==> merged(a, entries)[merged(a, entries).len()
                    - entries.len() + i] == encode_utf8(#[trigger] entries[i])
            &&& front(a + b) == front(a) + front(b)
            &&& front(seq![one]) == if makes_way(one, entries) {
                Seq::<Seq<u8>>::empty()
            } else {
                seq![one]
            }
        }),
    decreases a.len(),
{
    let keys = entry_keys(entries);
    let none = Seq::<Seq<u8>>::empty();
    let e = encoded(entries);
    lemma_others_in_parts(a, b, keys);
    lemma_has_key(entries, key_of(lossy_text(one)));
    assert(seq![one].skip(1) =~= none);
    assert(others(none, keys) == none);
    assert(seq![one] + none =~= seq![one]);
    assert((others(a, keys) + e).take(others(a, keys).len() as int) =~= others(a, keys));
    assert((others(b, keys) + e).take(others(b, keys).len() as int) =~= others(b, keys));
    assert((others(a + b, keys) + e).take(others(a + b, keys).len() as int) =~= others(a + b, keys));
    assert((others(seq![one], keys) + e).take(others(seq![one], keys).len() as int) =~= others(
        seq![one],
        keys,
    ));
}

proof fn lemma_others_in_parts(a: Seq<Seq<u8>>, b: Seq<Seq<u8>>, keys: Seq<Seq<char>>)
    ensures
        others(a + b, keys) == others(a, keys) + others(b, keys),
    decreases a.len(),
{
    if a.len() == 0 {
        assert(a + b =~= b);
        assert(others(a, keys) + others(b, keys) =~= others(b, keys));
    } else {
        lemma_others_in_parts(a.skip(1), b, keys);
        assert((a + b).skip(1) =~= a.skip(1) + b);
        assert((a + b)[0] == a[0]);
        assert(seq![a[0]] + (others(a.skip(1), keys) + others(b, keys)) =~= (seq![a[0]] + others(
            a.skip(1),
            keys,
        )) + others(b, keys));
    }
}

/// The comments that are written for a song and for lyrics: the whole value stands
/// behind its key and an equals sign.
pub proof fn law_entries_hold_their_values(
    title: Seq<char>,
    artist: Seq<char>,
    album: Seq<char>,
    lyrics: Seq<char>,
)
    ensures
        metadata_entries(title, artist, album) == seq![
            seq!['T', 'I', 'T', 'L', 'E', '='] + title,
            seq!['A', 'R', 'T', 'I', 'S', 'T', '='] + artist,
            seq!['A', 'L', 'B', 'U', 'M', '='] + album,
        ],
        lyrics_entry(lyrics) == seq!['L', 'Y', 'R', 'I', 'C', 'S', '='] + lyrics,
{
    reveal_strlit("TITLE=");
    reveal_strlit("ARTIST=");
    reveal_strlit("ALBUM=");
    reveal_strlit("LYRICS=");
    assert("TITLE="@ =~= seq!['T', 'I', 'T', 'L', 'E', '=']);
    assert("ARTIST="@ =~= seq!['A', 'R', 'T', 'I', 'S', 'T', '=']);
    assert("ALBUM="@ =~= seq!['A', 'L', 'B', 'U', 'M', '=']);
    assert("LYRICS="@ =~= seq!['L', 'Y', 'R', 'I', 'C', 'S', '=']);
}

/// How comments are stored: the vendor text behind its length, their number, and
/// each of them behind its length, all little-endian.
pub proof fn law_comment_layout(vendor: Seq<u8>, list: Seq<Seq<u8>>, more: Seq<Seq<u8>>, one: Seq<u8>)
    requires
        vendor.len() < 4294967296,
        list.len() < 4294967296,
        one.len() < 4294967296,
    ensures
        ({
            let p = comment_payload(vendor, list);
            let n = vendor.len() as int;
            &&& le32_at(p, 0) == n
            &&& p.subrange(4, 4 + n) == vendor
            &&& le32_at(p, 4 + n) == list.len()
            &&& p.skip(8 + n) == packed(list)
        }),
        packed(list + more) == packed(list) + packed(more),
        packed(Seq::empty()) == Seq::<u8>::empty(),
        packed(seq![one]).len() == 4 + one.len(),
        le32_at(packed(seq![one]), 0) == one.len(),
        packed(seq![one]).skip(4) == one,
{
    let p = comment_payload(vendor, list);
    let n = vendor.len() as int;
    assert(p.subrange(0, 4) =~= le32(n));
    assert(p.subrange(4, 4 + n) =~= vendor);
    assert(p.subrange(4 + n, 8 + n) =~= le32(list.len() as int));
    assert(p.skip(8 + n) =~= packed(list));
    lemma_le32_at(p, 0, n);
    lemma_le32_at(p, 4 + n, list.len() as int);
    lemma_packed_in_parts(list, more);
    let none = Seq::<Seq<u8>>::empty();
    assert(seq![one].skip(1) =~= none);
    assert(packed(none) == Seq::<u8>::empty());
    let q = packed(seq![one]);
    assert(q =~= le32(one.len() as int) + one);
    assert(q.subrange(0, 4) =~= le32(one.len() as int));
    lemma_le32_at(q, 0, one.len() as int);
    assert(q.skip(4) =~= one);
}

proof fn lemma_packed_in_parts(a: Seq<Seq<u8>>, b: Seq<Seq<u8>>)
    ensures
        packed(a + b) == packed(a) + packed(b),
    decreases a.len(),
{
    if a.len() == 0 {
        assert(a + b =~= b);
        assert(packed(a) + packed(b) =~= packed(b));
    } else {
        lemma_packed_in_parts(a.skip(1), b);
        assert((a + b).skip(1) =~= a.skip(1) + b);
        assert((a + b)[0] == a[0]);
        let first = le32(a[0].len() as int) + a[0];
        assert(first + (packed(a.skip(1)) + packed(b)) =~= (first + packed(a.skip(1))) + packed(b));
    }
}

/// How comments are read: one after the other, each of the length in front of it,
/// as many as are declared, and no further than they are complete.
pub proof fn law_comments_are_read(one: Seq<u8>, rest: Seq<u8>, count: nat)
    requires
        one.len() < 4294967296,
    ensures
        comments(le32(one.len() as int) + one + rest, count + 1) == seq![one] + comments(rest, count),
        comments(rest, 0) == Seq::<Seq<u8>>::empty(),
        rest.len() < 4 || 4 + le32_at(rest, 0) > rest.len() ==> comments(rest, count) == Seq::<
            Seq<u8>,
        >::empty(),
{
    let s = le32(one.len() as int) + one + rest;
    let n = one.len() as int;
    assert(s.subrange(0, 4) =~= le32(n));
    lemma_le32_at(s, 0, n);
    assert(s.subrange(4, 4 + n) =~= one);
    assert(s.skip(4 + n) =~= rest);
}

} // verus!
