//! What holds of the container and its ciphers.

use vstd::prelude::*;
use crate::bytes::{le32, le32_at, lemma_le32_at};
use crate::decode::{
    decoded, kind_of, plain_audio, processable, taggable, tagged, AudioKind, DecodedView,
};
use crate::json::Tree;
use crate::ncm_decrypt::{
    aes128_block, base64_decoded, ecb, is_padded, keybox_of, law_stream_undoes_itself,
    plain_metadata, schedule, stream_lut, streamed, unpadded, CORE_KEY, MODIFY_KEY,
};
use crate::ncm_file::{
    artist_names, header_of, key_block, metadata_text, song_in, song_of, song_of_block, tail_of,
    unmasked, HeaderError, HeaderView, TailView,
};
use crate::text::{joined, lossy_text};

verus! {

broadcast use crate::bytes::number_lengths;

/// One swap of the key schedule: swap `n` exchanges the bytes at `n` and at the
/// target, which is the byte at `n`, the target before and the key byte together.
pub open spec fn swaps(before: Seq<u8>, last: int, key_byte: u8, n: int, after: Seq<u8>, target: int) -> bool {
    &&& after.len() == 256
    &&& target == (before[n] + last + key_byte) % 256
    &&& after[target] == before[n]
    &&& target != n ==> after[n] == before[target]
    &&& forall|j: int| 0 <= j < 256 && j != n && j != target ==> #[trigger] after[j] == before[j]
}

proof fn lemma_schedule_follows(key: Seq<u8>, boxes: Seq<Seq<u8>>, targets: Seq<int>, n: nat)
    requires
        key.len() > 0,
        n <= 256,
        boxes.len() == 257,
        targets.len() == 257,
        targets[0] == 0,
        boxes[0].len() == 256,
        forall|j: int| 0 <= j < 256 ==> #[trigger] boxes[0][j] == j,
        forall|k: int|
            0 <= k < 256 ==> #[trigger] swaps(
                boxes[k],
                targets[k],
                key[k % (key.len() as int)],
                k,
                boxes[k + 1],
                targets[k + 1],
            ),
    ensures
        schedule(key, n).0 == boxes[n as int],
        schedule(key, n).1 == targets[n as int],
        schedule(key, n).2 == (n as int) % (key.len() as int),
        boxes[n as int].len() == 256,
        0 <= targets[n as int] < 256,
    decreases n,
{
    if n == 0 {
        assert(schedule(key, 0).0 =~= boxes[0]);
        assert(0int % (key.len() as int) == 0) by (nonlinear_arith)
            requires
                key.len() > 0,
        ;
    } else {
        let k = n - 1;
        lemma_schedule_follows(key, boxes, targets, k as nat);
        law_every_key_byte_is_used(key, k as nat);
        law_every_key_byte_is_used(key, n);
        assert(swaps(
            boxes[k],
            targets[k],
            key[k % (key.len() as int)],
            k,
            boxes[k + 1],
            targets[k + 1],
        ));
        assert(schedule(key, n).0 =~= boxes[n as int]);
    }
}

/// The key box of a key: from the bytes in their order, 256 swaps make it, and
/// swap `n` uses the byte at `n` of the key written over and over.
pub proof fn law_keybox_is_made_by_swaps(key: Seq<u8>, boxes: Seq<Seq<u8>>, targets: Seq<int>)
    requires
        key.len() > 0,
        boxes.len() == 257,
        targets.len() == 257,
        targets[0] == 0,
        boxes[0].len() == 256,
        forall|j: int| 0 <= j < 256 ==> #[trigger] boxes[0][j] == j,
        forall|k: int|
            0 <= k < 256 ==> #[trigger] swaps(
                boxes[k],
                targets[k],
                key[k % (key.len() as int)],
                k,
                boxes[k + 1],
                targets[k + 1],
            ),
    ensures
        keybox_of(key) == boxes[256],
{
    lemma_schedule_follows(key, boxes, targets, 256);
}

proof fn lemma_next_position(n: int, len: int)
    requires
        0 <= n,
        0 < len,
    ensures
        (n % len + 1) % len == (n + 1) % len,
{
    vstd::arithmetic::div_mod::lemma_add_mod_noop(n, 1, len);
    if len == 1 {
        assert((n % len + 1) % len == 0 && (n + 1) % len == 0);
    } else {
        vstd::arithmetic::div_mod::lemma_small_mod(1, len as nat);
    }
}

/// The key is used byte by byte and over and over: the key position of swap `n`
/// is `n` modulo the length of the key, whatever that length is. And the byte can
/// be computed back from the swap, so each one counts.
pub proof fn law_every_key_byte_is_used(key: Seq<u8>, n: nat)
    requires
        key.len() > 0,
        n <= 256,
    ensures
        schedule(key, n).2 == (n as int) % (key.len() as int),
        n < 256 ==> key[(n as int) % (key.len() as int)] == (schedule(key, n + 1).1 - schedule(key, n).1
            - schedule(key, n).0[n as int]) % 256,
    decreases n,
{
    if n == 0 {
        assert(0int % (key.len() as int) == 0) by (nonlinear_arith)
            requires
                key.len() > 0,
        ;
    } else {
        law_every_key_byte_is_used(key, (n - 1) as nat);
        lemma_next_position(n - 1, key.len() as int);
    }
    if n < 256 {
        let (b, last, off) = schedule(key, n);
        let k = key[off];
        assert(schedule(key, n + 1).1 == (b[n as int] + last + k) % 256);
    }
}

proof fn lemma_same_schedule(one: Seq<u8>, two: Seq<u8>, n: nat)
    requires
        one.len() > 0,
        two.len() > 0,
        n <= 256,
        forall|k: int|
            0 <= k < 256 ==> #[trigger] one[k % (one.len() as int)] == two[k % (two.len() as int)],
    ensures
        schedule(one, n).0 == schedule(two, n).0,
        schedule(one, n).1 == schedule(two, n).1,
    decreases n,
{
    if n > 0 {
        let k = n - 1;
        lemma_same_schedule(one, two, k as nat);
        law_every_key_byte_is_used(one, k as nat);
        law_every_key_byte_is_used(two, k as nat);
        assert(one[k % (one.len() as int)] == two[k % (two.len() as int)]);
    }
}

/// Keys that agree on 256 bytes when they are written over and over have the same
/// key box, and so have a key and the key written twice.
pub proof fn law_keys_are_used_over_and_over(one: Seq<u8>, two: Seq<u8>)
    requires
        one.len() > 0,
        two.len() > 0,
    ensures
        (forall|k: int|
            0 <= k < 256 ==> #[trigger] one[k % (one.len() as int)] == two[k % (two.len() as int)])
            ==> keybox_of(one) == keybox_of(two),
        keybox_of(one + one) == keybox_of(one),
{
    if forall|k: int|
        0 <= k < 256 ==> #[trigger] one[k % (one.len() as int)] == two[k % (two.len() as int)] {
        lemma_same_schedule(one, two, 256);
    }
    let n = one.len() as int;
    let both = one + one;
    assert forall|k: int| 0 <= k < 256 implies #[trigger] both[k % (both.len() as int)] == one[k % n] by {
        let m = k % (2 * n);
        vstd::arithmetic::div_mod::lemma_mod_mod(k, n, 2);
        assert(n * 2 == 2 * n && both.len() == 2 * n);
        assert(m % n == k % n);
        assert(0 <= m < 2 * n) by {
            vstd::arithmetic::div_mod::lemma_mod_bound(k, 2 * n);
        }
        if m < n {
            vstd::arithmetic::div_mod::lemma_small_mod(m as nat, n as nat);
        } else {
            vstd::arithmetic::div_mod::lemma_mod_sub_multiples_vanish(m, n);
            vstd::arithmetic::div_mod::lemma_small_mod((m - n) as nat, n as nat);
        }
    }
    lemma_same_schedule(both, one, 256);
}

/// Byte `i` of the audio is combined with one byte of the key box. With `j` the
/// low eight bits of `i + 1` and `a` the box at `j`, it is the box at `a` plus the
/// box at `a + j`, both positions again cut to eight bits.
pub proof fn law_keystream_of_a_box(keybox: Seq<u8>, audio: Seq<u8>, i: int)
    requires
        0 <= i < audio.len(),
    ensures
        ({
            let out = streamed(stream_lut(keybox), 0, audio);
            let j = (i + 1) % 256;
            let a = keybox[j] as int;
            &&& out.len() == audio.len()
            &&& out[i] ^ audio[i] == keybox[(a + keybox[(a + j) % 256]) % 256]
        }),
{
    let k = stream_lut(keybox)[(i + 1) % 256];
    let x = audio[i];
    assert((x ^ k) ^ x == k) by (bit_vector);
}

/// Decryption goes block by block: whole blocks in front and what follows them
/// are decrypted on their own, a block of sixteen bytes is one call of the
/// cipher, and fewer bytes stay.
pub proof fn law_blocks_are_independent(key: Seq<u8>, a: Seq<u8>, b: Seq<u8>)
    requires
        a.len() % 16 == 0,
    ensures
        ecb(key, a + b) == ecb(key, a) + ecb(key, b),
        a.len() == 16 ==> ecb(key, a) == aes128_block(key, a),
        b.len() < 16 ==> ecb(key, b) == b,
    decreases a.len(),
{
    if a.len() == 0 {
        assert(a + b =~= b);
        assert(ecb(key, a) + ecb(key, b) =~= ecb(key, b));
    } else {
        let rest = a.skip(16);
        law_blocks_are_independent(key, rest, b);
        assert((a + b).take(16) =~= a.take(16));
        assert((a + b).skip(16) =~= rest + b);
        let first = aes128_block(key, a.take(16));
        assert(first + (ecb(key, rest) + ecb(key, b)) =~= (first + ecb(key, rest)) + ecb(key, b));
        if a.len() == 16 {
            assert(a.take(16) =~= a);
            assert(rest =~= Seq::<u8>::empty());
            assert(first + ecb(key, rest) =~= first);
        }
    }
}

/// `n` bytes of value `n`.
pub open spec fn padding(n: u8) -> Seq<u8> {
    Seq::new(n as nat, |i: int| n)
}

/// Padding of `n` bytes of value `n`, with `n` from 1 to 16, is removed. Nothing
/// else is ever removed.
pub proof fn law_padding_is_removed(data: Seq<u8>, n: u8)
    requires
        1 <= n <= 16,
    ensures
        unpadded(data + padding(n)) == data,
        unpadded(data) == data || exists|p: u8|
            1 <= p <= 16 && data == unpadded(data) + #[trigger] padding(p),
{
    let pad = padding(n);
    let all = data + pad;
    assert(all.last() == n);
    assert(is_padded(all)) by {
        assert forall|i: int| all.len() - n <= i < all.len() implies #[trigger] all[i] == n by {
            assert(all[i] == pad[i - data.len()]);
        }
    }
    assert(all.take(all.len() - n) =~= data);
    if is_padded(data) {
        let p = data.last();
        let end = padding(p);
        assert(data =~= unpadded(data) + end);
    }
}

/// The bytes of an ASCII text.
pub open spec fn ascii(text: Seq<char>) -> Seq<u8> {
    text.map_values(|c: char| (c as int) as u8)
}

/// The key that key blocks are encrypted with.
pub open spec fn core_key() -> Seq<u8> {
    ascii("hzHRAmso5kInbaxW"@)
}

/// The key that metadata is encrypted with.
pub open spec fn metadata_key() -> Seq<u8> {
    ascii("#14ljk_!\\]&0U<'("@)
}

proof fn lemma_fixed_keys()
    ensures
        CORE_KEY@ == core_key(),
        MODIFY_KEY@ == metadata_key(),
{
    reveal_strlit("hzHRAmso5kInbaxW");
    reveal_strlit("#14ljk_!\\]&0U<'(");
    let c = core_key();
    let m = metadata_key();
    assert(c.len() == 16 && m.len() == 16);
    assert(c[0] == 0x68 && c[1] == 0x7a && c[2] == 0x48 && c[3] == 0x52 && c[4] == 0x41 && c[5]
        == 0x6d && c[6] == 0x73 && c[7] == 0x6f && c[8] == 0x35 && c[9] == 0x6b && c[10] == 0x49
        && c[11] == 0x6e && c[12] == 0x62 && c[13] == 0x61 && c[14] == 0x78 && c[15] == 0x57);
    assert(m[0] == 0x23 && m[1] == 0x31 && m[2] == 0x34 && m[3] == 0x6c && m[4] == 0x6a && m[5]
        == 0x6b && m[6] == 0x5f && m[7] == 0x21 && m[8] == 0x5c && m[9] == 0x5d && m[10] == 0x26
        && m[11] == 0x30 && m[12] == 0x55 && m[13] == 0x3c && m[14] == 0x27 && m[15] == 0x28);
    assert(CORE_KEY@ =~= c);
    assert(MODIFY_KEY@ =~= m);
}

/// Metadata that is valid base64 is decoded and then decrypted, other metadata is
/// decrypted as it is.
pub proof fn law_metadata_is_decrypted(data: Seq<u8>)
    ensures
        match base64_decoded(data) {
            Some(bytes) => plain_metadata(data) == unpadded(ecb(metadata_key(), bytes)) && (
            base64_decoded(bytes) is None ==> plain_metadata(data) == plain_metadata(bytes)),
            None => plain_metadata(data) == unpadded(ecb(metadata_key(), data)),
        },
{
    lemma_fixed_keys();
}

/// The value under a key is that of the first field with the key.
pub proof fn law_fields_are_found(fields: Seq<(Seq<char>, Tree)>, key: Seq<char>, i: int)
    requires
        0 <= i <= fields.len(),
        forall|j: int| 0 <= j < i ==> (#[trigger] fields[j]).0 != key,
        i < fields.len() ==> fields[i].0 == key,
    ensures
        ({
            let tree = Tree::Object(fields);
            if i < fields.len() {
                &&& tree.field(key) == Some(fields[i].1)
                &&& tree.text_field(key) == match fields[i].1 {
                    Tree::Text(text) => Some(text),
                    _ => None,
                }
                &&& tree.list_field(key) == match fields[i].1 {
                    Tree::List(items) => Some(items),
                    _ => None,
                }
            } else {
                tree.field(key) is None && tree.text_field(key) is None && tree.list_field(
                    key,
                ) is None
            }
        }),
    decreases i,
{
    if i > 0 {
        assert(fields[0].0 != key);
        assert forall|j: int| 0 <= j < i - 1 implies (#[trigger] fields.skip(1)[j]).0 != key by {
            assert(fields.skip(1)[j] == fields[j + 1]);
        }
        law_fields_are_found(fields.skip(1), key, i - 1);
    }
}

/// The artists of a list are those of its parts, in their order. One entry of the
/// list gives a name exactly where it is a list that begins with a text.
pub proof fn law_artists_in_parts(a: Seq<Tree>, b: Seq<Tree>, one: Tree)
    ensures
        artist_names(a + b) == artist_names(a) + artist_names(b),
        artist_names(seq![one]) == match one {
            Tree::List(items) => if items.len() > 0 {
                match items[0] {
                    Tree::Text(name) => seq![name],
                    _ => Seq::<Seq<char>>::empty(),
                }
            } else {
                Seq::<Seq<char>>::empty()
            },
            _ => Seq::<Seq<char>>::empty(),
        },
    decreases b.len(),
{
    let none = Seq::<Seq<char>>::empty();
    assert(seq![one].drop_last() =~= Seq::<Tree>::empty());
    assert(artist_names(Seq::<Tree>::empty()) == none);
    if let Tree::List(items) = one {
        if items.len() > 0 {
            if let Tree::Text(name) = items[0] {
                assert(none.push(name) =~= seq![name]);
            }
        }
    }
    if b.len() == 0 {
        assert(a + b =~= a);
        assert(artist_names(a) + artist_names(b) =~= artist_names(a));
    } else {
        assert((a + b).drop_last() =~= a + b.drop_last());
        law_artists_in_parts(a, b.drop_last(), one);
        assert(artist_names(a + b) =~= artist_names(a) + artist_names(b));
    }
}

/// What a song is read from: its title, album and format are the texts under their
/// keys, its artist the names joined by slashes, and what is missing is empty, but
/// for the format.
pub proof fn law_song_is_read(tree: Tree)
    ensures
        ({
            let song = song_of(Some(tree));
            &&& song.title == match tree.field("musicName"@) {
                Some(Tree::Text(text)) => text,
                _ => Seq::<char>::empty(),
            }
            &&& song.album == match tree.field("album"@) {
                Some(Tree::Text(text)) => text,
                _ => Seq::<char>::empty(),
            }
            &&& song.artist == match tree.field("artist"@) {
                Some(Tree::List(items)) => joined(artist_names(items), "/"@),
                _ => Seq::<char>::empty(),
            }
            &&& song.format == match tree.field("format"@) {
                Some(Tree::Text(text)) => text,
                _ => "mp3"@,
            }
            &&& song.picture_type == 3
            &&& song_of(None) == song_of(Some(Tree::Null))
        }),
{
    assert(joined(artist_names(Seq::<Tree>::empty()), "/"@) == Seq::<char>::empty());
}

/// The document of a song follows six bytes in the decrypted metadata, and the
/// metadata follows 22 bytes in its block. An empty block says nothing.
pub proof fn law_metadata_has_prefixes(prefix: Seq<u8>, rest: Seq<u8>)
    ensures
        prefix.len() == 6 ==> metadata_text(prefix + rest) == lossy_text(rest),
        prefix.len() < 6 ==> metadata_text(prefix) == lossy_text(prefix),
        prefix.len() == 22 ==> song_of_block(prefix + rest) == song_in(rest),
        0 < prefix.len() <= 22 ==> song_of_block(prefix) == song_in(Seq::empty()),
        song_of_block(Seq::empty()) == song_of(None),
{
    if prefix.len() == 6 {
        assert((prefix + rest).skip(6) =~= rest);
    }
    if prefix.len() == 22 {
        assert((prefix + rest).skip(22) =~= rest);
    }
    if 0 < prefix.len() <= 22 {
        assert(prefix.skip(prefix.len() as int) =~= Seq::<u8>::empty());
    }
}

/// The bytes with each one combined with `mask`.
pub open spec fn masked(s: Seq<u8>, mask: u8) -> Seq<u8> {
    Seq::new(s.len(), |i: int| s[i] ^ mask)
}

/// A container file as it is written: ten bytes with the marker, then the key, the
/// metadata, nine bytes, the cover and the audio. Key, metadata and cover stand
/// behind their lengths.
pub open spec fn sealed(
    front: Seq<u8>,
    key: Seq<u8>,
    meta: Seq<u8>,
    reserved: Seq<u8>,
    cover: Seq<u8>,
    audio: Seq<u8>,
) -> Seq<u8> {
    front + le32(key.len() as int) + masked(key, 0x64) + le32(meta.len() as int) + masked(meta, 0x63)
        + reserved + le32(cover.len() as int) + cover + audio
}

/// Whether the bytes spell one of the two markers.
pub open spec fn is_marked(front: Seq<u8>) -> bool {
    front.len() >= 8 && {
        let m = front.take(8);
        ||| m == seq![67u8, 84, 69, 78, 70, 68, 65, 77]
        ||| m == seq![78u8, 69, 84, 67, 77, 65, 68, 70]
    }
}

proof fn lemma_unmask_mask(s: Seq<u8>, mask: u8)
    ensures
        unmasked(masked(s, mask), mask) == s,
{
    assert forall|i: int| 0 <= i < s.len() implies (s[i] ^ mask) ^ mask == #[trigger] s[i] by {
        let a = s[i];
        assert((a ^ mask) ^ mask == a) by (bit_vector);
    }
    assert(unmasked(masked(s, mask), mask) =~= s);
}

proof fn lemma_sealed_parts(
    front: Seq<u8>,
    key: Seq<u8>,
    meta: Seq<u8>,
    reserved: Seq<u8>,
    cover: Seq<u8>,
    audio: Seq<u8>,
)
    requires
        front.len() == 10,
        reserved.len() == 9,
    ensures
        ({
            let f = sealed(front, key, meta, reserved, cover, audio);
            let k = key.len() as int;
            let m = meta.len() as int;
            let c = cover.len() as int;
            &&& f.len() == 31 + k + m + c + audio.len()
            &&& f.take(10) == front
            &&& f.subrange(10, 14) == le32(k)
            &&& f.subrange(14, 14 + k) == masked(key, 0x64)
            &&& f.subrange(14 + k, 18 + k) == le32(m)
            &&& f.subrange(18 + k, 18 + k + m) == masked(meta, 0x63)
            &&& f.subrange(27 + k + m, 31 + k + m) == le32(c)
            &&& f.subrange(31 + k + m, 31 + k + m + c) == cover
            &&& f.skip(31 + k + m + c) == audio
        }),
{
    let f = sealed(front, key, meta, reserved, cover, audio);
    let k = key.len() as int;
    let m = meta.len() as int;
    let c = cover.len() as int;
    assert(f.take(10) =~= front);
    assert(f.subrange(10, 14) =~= le32(k));
    assert(f.subrange(14, 14 + k) =~= masked(key, 0x64));
    assert(f.subrange(14 + k, 18 + k) =~= le32(m));
    assert(f.subrange(18 + k, 18 + k + m) =~= masked(meta, 0x63));
    assert(f.subrange(27 + k + m, 31 + k + m) =~= le32(c));
    assert(f.subrange(31 + k + m, 31 + k + m + c) =~= cover);
    assert(f.skip(31 + k + m + c) =~= audio);
}

proof fn lemma_marker(data: Seq<u8>)
    requires
        data.len() >= 8,
    ensures
        crate::ncm_file::has_marker(data) <==> is_marked(data),
{
    assert(seq![0x43u8, 0x54, 0x45, 0x4e, 0x46, 0x44, 0x41, 0x4d] =~= seq![
        67u8,
        84,
        69,
        78,
        70,
        68,
        65,
        77,
    ]);
    assert(seq![0x4eu8, 0x45, 0x54, 0x43, 0x4d, 0x41, 0x44, 0x46] =~= seq![
        78u8,
        69,
        84,
        67,
        77,
        65,
        68,
        70,
    ]);
}

proof fn lemma_sealed_key(
    front: Seq<u8>,
    key: Seq<u8>,
    meta: Seq<u8>,
    reserved: Seq<u8>,
    cover: Seq<u8>,
    audio: Seq<u8>,
)
    requires
        front.len() == 10,
        is_marked(front),
        0 < key.len() <= u32::MAX,
        reserved.len() == 9,
        sealed(front, key, meta, reserved, cover, audio).len() <= u64::MAX,
    ensures
        ({
            let file = sealed(front, key, meta, reserved, cover, audio);
            key_block(file, file.len() as u64) == Ok::<Seq<u8>, HeaderError>(key)
        }),
{
    let file = sealed(front, key, meta, reserved, cover, audio);
    let k = key.len() as int;
    lemma_sealed_parts(front, key, meta, reserved, cover, audio);
    lemma_le32_at(file, 10, k);
    assert(file.take(8) =~= front.take(8)) by {
        assert(file.take(8) =~= file.take(10).take(8));
    }
    lemma_marker(file);
    lemma_unmask_mask(key, 0x64);
}

proof fn lemma_sealed_tail(
    front: Seq<u8>,
    key: Seq<u8>,
    meta: Seq<u8>,
    reserved: Seq<u8>,
    cover: Seq<u8>,
    audio: Seq<u8>,
)
    requires
        front.len() == 10,
        meta.len() <= u32::MAX,
        reserved.len() == 9,
        cover.len() <= u32::MAX,
        sealed(front, key, meta, reserved, cover, audio).len() <= u64::MAX,
    ensures
        ({
            let file = sealed(front, key, meta, reserved, cover, audio);
            let k = key.len() as int;
            tail_of(file, 14 + k, file.len() as u64) == Ok::<TailView, HeaderError>(
                TailView {
                    metadata: meta,
                    image_start: 31 + k + meta.len() as int,
                    cover_len: cover.len() as int,
                },
            )
        }),
{
    let file = sealed(front, key, meta, reserved, cover, audio);
    let k = key.len() as int;
    let m = meta.len() as int;
    lemma_sealed_parts(front, key, meta, reserved, cover, audio);
    lemma_le32_at(file, 14 + k, m);
    lemma_le32_at(file, 27 + k + m, cover.len() as int);
    lemma_unmask_mask(meta, 0x63);
}

/// A container that was written is read: the key box is that of the key behind
/// seventeen bytes of the decrypted key block, the song is that of the metadata,
/// the cover is found at its place, and the audio starts right behind it.
#[verifier::rlimit(40)]
pub proof fn law_header_is_read_back(
    front: Seq<u8>,
    key: Seq<u8>,
    meta: Seq<u8>,
    reserved: Seq<u8>,
    cover: Seq<u8>,
    audio: Seq<u8>,
    prefix: Seq<u8>,
    secret: Seq<u8>,
)
    requires
        front.len() == 10,
        is_marked(front),
        0 < key.len() <= u32::MAX,
        meta.len() <= u32::MAX,
        reserved.len() == 9,
        cover.len() <= u32::MAX,
        sealed(front, key, meta, reserved, cover, audio).len() <= u64::MAX,
        unpadded(ecb(core_key(), key)) == prefix + secret,
        prefix.len() == 17,
    ensures
        ({
            let file = sealed(front, key, meta, reserved, cover, audio);
            let start = 31 + key.len() as int + meta.len() as int;
            header_of(file, file.len() as u64) == Ok::<HeaderView, HeaderError>(
                HeaderView {
                    keybox: keybox_of(secret),
                    metadata: song_of_block(meta),
                    cover: if cover.len() > 0 {
                        Some((start, cover.len() as int))
                    } else {
                        None
                    },
                    audio_offset: start + cover.len() as int,
                },
            )
        }),
{
    lemma_fixed_keys();
    lemma_sealed_key(front, key, meta, reserved, cover, audio);
    lemma_sealed_tail(front, key, meta, reserved, cover, audio);
    assert((prefix + secret).skip(17) =~= secret);
}

proof fn lemma_decoded(file: Seq<u8>, h: HeaderView)
    requires
        header_of(file, file.len() as u64) == Ok::<HeaderView, HeaderError>(h),
    ensures
        decoded(file) is Ok,
        decoded(file)->Ok_0.kind == kind_of(plain_audio(file, h)),
        decoded(file)->Ok_0.audio == tagged(
            kind_of(plain_audio(file, h)),
            plain_audio(file, h),
            h.metadata,
        ),
        decoded(file)->Ok_0.cover == match h.cover {
            Some((start, len)) => Some(file.subrange(start, start + len)),
            None => None,
        },
        plain_audio(file, h) == streamed(stream_lut(h.keybox), 0, file.skip(h.audio_offset)),
{
}

/// A container whose audio went through the keystream of its key is decoded to
/// that audio, tagged with the song of its metadata, and to its cover.
#[verifier::rlimit(40)]
pub proof fn law_container_is_decoded(
    front: Seq<u8>,
    key: Seq<u8>,
    meta: Seq<u8>,
    reserved: Seq<u8>,
    cover: Seq<u8>,
    audio: Seq<u8>,
    prefix: Seq<u8>,
    secret: Seq<u8>,
)
    requires
        front.len() == 10,
        is_marked(front),
        0 < key.len() <= u32::MAX,
        meta.len() <= u32::MAX,
        reserved.len() == 9,
        cover.len() <= u32::MAX,
        sealed(front, key, meta, reserved, cover, audio).len() <= u64::MAX,
        unpadded(ecb(core_key(), key)) == prefix + secret,
        prefix.len() == 17,
    ensures
        ({
            let hidden = streamed(stream_lut(keybox_of(secret)), 0, audio);
            decoded(sealed(front, key, meta, reserved, cover, hidden)) == Ok::<
                DecodedView,
                HeaderError,
            >(
                DecodedView {
                    kind: kind_of(audio),
                    audio: tagged(kind_of(audio), audio, song_of_block(meta)),
                    cover: if cover.len() > 0 {
                        Some(cover)
                    } else {
                        None
                    },
                },
            )
        }),
{
    let lut = stream_lut(keybox_of(secret));
    let hidden = streamed(lut, 0, audio);
    let file = sealed(front, key, meta, reserved, cover, hidden);
    lemma_sealed_parts(front, key, meta, reserved, cover, audio);
    lemma_sealed_parts(front, key, meta, reserved, cover, hidden);
    law_header_is_read_back(front, key, meta, reserved, cover, hidden, prefix, secret);
    law_stream_undoes_itself(lut, 0, audio);
    lemma_decoded(file, header_of(file, file.len() as u64)->Ok_0);
}

/// When a file is refused, and why. The first thing that is wrong counts.
#[verifier::rlimit(40)]
pub proof fn law_refusals(data: Seq<u8>, total: u64)
    ensures
        ({
            let k = le32_at(data, 10);
            let p = 14 + k;
            let m = le32_at(data, p);
            let short = |n: int|
                header_of(data, total) == Err::<HeaderView, HeaderError>(
                    HeaderError::UnexpectedEof { needed: n as u64 },
                );
            let refused = |e: HeaderError| header_of(data, total) == Err::<HeaderView, HeaderError>(e);
            if data.len() < 10 {
                short(10)
            } else if !is_marked(data) {
                refused(HeaderError::InvalidHeader)
            } else if data.len() < 14 {
                short(14)
            } else if k == 0 || k > total {
                refused(HeaderError::InvalidKeyBlock)
            } else if data.len() < p {
                short(p)
            } else if unpadded(ecb(core_key(), masked(data.subrange(14, p), 0x64))).len() < 17 {
                refused(HeaderError::InvalidKey)
            } else if data.len() < p + 4 {
                short(p + 4)
            } else if data.len() < p + 4 + m {
                short(p + 4 + m)
            } else if data.len() < p + 13 + m {
                short(p + 13 + m)
            } else if data.len() < p + 17 + m {
                short(p + 17 + m)
            } else {
                header_of(data, total) is Ok
            }
        }),
{
    lemma_fixed_keys();
    if data.len() >= 8 {
        lemma_marker(data);
    }
    let p = 14 + le32_at(data, 10);
    if data.len() >= 14 && data.len() >= p {
        let part = data.subrange(14, p);
        assert(unmasked(part, 0x64) =~= masked(part, 0x64));
    }
}

/// A cover that is declared longer than the file is cut at the end of the file.
pub proof fn law_cover_is_cut_at_the_end(data: Seq<u8>, total: u64)
    requires
        header_of(data, total) is Ok,
        data.len() <= total,
    ensures
        ({
            let h = header_of(data, total)->Ok_0;
            let start = 31 + le32_at(data, 10) + le32_at(data, 14 + le32_at(data, 10));
            let declared = le32_at(data, start - 4);
            let len = if declared <= total - start {
                declared
            } else {
                total - start
            };
            &&& h.audio_offset == start + len
            &&& h.cover == if len > 0 {
                Some((start, len))
            } else {
                None::<(int, int)>
            }
        }),
{
}

/// The container of the audio by its first bytes: FLAC by its marker, MP3 by a tag
/// or by eleven set bits, and FLAC for anything else.
pub proof fn law_container_by_first_bytes(rest: Seq<u8>, b: u8, audio: Seq<u8>)
    ensures
        kind_of(seq![102u8, 76, 97, 67] + rest) == AudioKind::Flac,
        kind_of(seq![73u8, 68, 51] + rest) == AudioKind::Mp3,
        kind_of(seq![255u8, b] + rest) == if b >= 224 {
            AudioKind::Mp3
        } else {
            AudioKind::Flac
        },
        audio.len() < 2 ==> kind_of(audio) == AudioKind::Flac,
        audio.len() >= 2 && audio[0] != 255 && !(audio.len() >= 3 && audio[0] == 73 && audio[1] == 68
            && audio[2] == 51) ==> kind_of(audio) == AudioKind::Flac,
{
    assert(b & 0xe0 == 0xe0 <==> b >= 224) by (bit_vector);
    let flac = seq![102u8, 76, 97, 67] + rest;
    assert(flac.take(4) =~= seq![0x66u8, 0x4cu8, 0x61u8, 0x43u8]);
    let id3 = seq![73u8, 68, 51] + rest;
    assert(id3.take(3) =~= crate::id3::marker());
    assert(id3[0] == 73);
    assert(id3.len() >= 4 ==> id3.take(4)[0] == 73);
    let frame = seq![255u8, b] + rest;
    assert(frame[0] == 255 && frame[1] == b);
    assert(frame.len() >= 4 ==> frame.take(4)[0] == 255);
    assert(frame.len() >= 3 ==> frame.take(3)[0] == 255);
    if audio.len() >= 3 {
        assert(audio.take(3)[0] == audio[0] && audio.take(3)[1] == audio[1] && audio.take(3)[2]
            == audio[2]);
        assert(crate::id3::marker()[0] == 73 && crate::id3::marker()[1] == 68
            && crate::id3::marker()[2] == 51);
    }
}

/// A container whose key is not empty is decoded, if its audio can be tagged.
#[verifier::rlimit(40)]
pub proof fn law_containers_are_processed(
    front: Seq<u8>,
    key: Seq<u8>,
    meta: Seq<u8>,
    reserved: Seq<u8>,
    cover: Seq<u8>,
    audio: Seq<u8>,
    prefix: Seq<u8>,
    secret: Seq<u8>,
)
    requires
        front.len() == 10,
        is_marked(front),
        0 < key.len() <= u32::MAX,
        meta.len() <= u32::MAX,
        reserved.len() == 9,
        cover.len() <= u32::MAX,
        sealed(front, key, meta, reserved, cover, audio).len() <= u64::MAX,
        unpadded(ecb(core_key(), key)) == prefix + secret,
        prefix.len() == 17,
    ensures
        ({
            let hidden = streamed(stream_lut(keybox_of(secret)), 0, audio);
            processable(sealed(front, key, meta, reserved, cover, hidden)) <==> secret.len() > 0
                && taggable(kind_of(audio), audio)
        }),
{
    lemma_fixed_keys();
    let lut = stream_lut(keybox_of(secret));
    let hidden = streamed(lut, 0, audio);
    let file = sealed(front, key, meta, reserved, cover, hidden);
    lemma_sealed_parts(front, key, meta, reserved, cover, audio);
    lemma_sealed_parts(front, key, meta, reserved, cover, hidden);
    law_header_is_read_back(front, key, meta, reserved, cover, hidden, prefix, secret);
    law_stream_undoes_itself(lut, 0, audio);
    lemma_sealed_key(front, key, meta, reserved, cover, hidden);
}

} // verus!
