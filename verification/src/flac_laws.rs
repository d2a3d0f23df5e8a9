//! What holds of FLAC metadata across the operations on it.

use vstd::prelude::*;
use vstd::utf8::{encode_utf8, encode_utf8_decode_utf8, encode_utf8_valid_utf8};
use crate::bytes::{
    be24, be24_at, le32, le32_at, lemma_be24_read, lemma_first_index, lemma_le32_at,
    lemma_le32_read,
};
use crate::flac::{
    block_end, comment_block, comment_payload, comments, comments_complete, comments_of,
    declared_count, encoded, entry_keys, essential, has_key, is_flac, keeps_text, key_of,
    last_block, lyrics_entry, make_block, merged, others, packed, payload_at, picture_payload, vendor_of, vendor_readable,
    with_block, with_comments, with_entries, FlacError,
};
use crate::text::{lossy_text, same_ignoring_case};

verus! {

broadcast use crate::bytes::number_lengths;

/// A metadata block: its kind and what it holds.
pub struct Block {
    pub kind: u8,
    pub payload: Seq<u8>,
}

/// The metadata blocks at the start of `rest` up to the one that is marked as
/// the last, and the audio behind them. `None` where the data ends before.
pub open spec fn chain(rest: Seq<u8>) -> Option<(Seq<Block>, Seq<u8>)>
    decreases rest.len(),
{
    if rest.len() < 4 || 4 + be24_at(rest, 1) > rest.len() {
        None
    } else {
        let end = 4 + be24_at(rest, 1);
        let block = Block { kind: (rest[0] % 128) as u8, payload: rest.subrange(4, end) };
        if rest[0] >= 128 {
            Some((seq![block], rest.skip(end)))
        } else {
            match chain(rest.skip(end)) {
                None => None,
                Some((blocks, audio)) => Some((seq![block] + blocks, audio)),
            }
        }
    }
}

spec fn blocks_in(rest: Seq<u8>) -> Seq<Block> {
    match chain(rest) {
        Some((blocks, _)) => blocks,
        None => Seq::empty(),
    }
}

spec fn audio_in(rest: Seq<u8>) -> Seq<u8> {
    match chain(rest) {
        Some((_, audio)) => audio,
        None => Seq::empty(),
    }
}

/// The metadata blocks of a FLAC stream and its audio.
pub open spec fn stream(data: Seq<u8>) -> Option<(Seq<Block>, Seq<u8>)> {
    if is_flac(data) {
        chain(data.skip(4))
    } else {
        None
    }
}

/// The blocks with the payload of the first comment block exchanged.
pub open spec fn exchanged(blocks: Seq<Block>, payload: Seq<u8>) -> Seq<Block>
    decreases blocks.len(),
{
    if blocks.len() == 0 {
        blocks
    } else if blocks[0].kind == 4 {
        seq![Block { kind: 4, payload }] + blocks.skip(1)
    } else {
        seq![blocks[0]] + exchanged(blocks.skip(1), payload)
    }
}

proof fn lemma_cons<T>(x: T, s: Seq<T>)
    ensures
        (seq![x] + s).len() == s.len() + 1,
        (seq![x] + s)[0] == x,
        (seq![x] + s).skip(1) == s,
{
    assert((seq![x] + s).skip(1) =~= s);
}

/// A block that is written is read back, and what follows it follows.
proof fn lemma_chain_block(last: bool, kind: u8, payload: Seq<u8>, tail: Seq<u8>)
    requires
        payload.len() < 16777216,
    ensures
        ({
            let rest = make_block(last, kind, payload) + tail;
            let end = 4 + payload.len() as int;
            &&& rest.len() >= 4
            &&& be24_at(rest, 1) == payload.len()
            &&& rest[0] % 128 == kind % 128
            &&& (rest[0] >= 128 <==> last)
            &&& rest.subrange(4, end) == payload
            &&& rest.skip(end) == tail
        }),
{
    let rest = make_block(last, kind, payload) + tail;
    let n = payload.len() as int;
    lemma_be24_read(n);
    assert(be24_at(rest, 1) == be24_at(be24(n), 0));
    assert(rest.subrange(4, 4 + n) =~= payload);
    assert(rest.skip(4 + n) =~= tail);
}

#[verifier::rlimit(40)]
proof fn lemma_insert(data: Seq<u8>, pos: int, h: int, kind: u8, payload: Seq<u8>)
    requires
        0 <= pos,
        last_block(data, pos) == Ok::<int, FlacError>(h),
        payload.len() < 16777216,
    ensures
        pos <= h,
        h + 4 <= block_end(data, h) <= data.len(),
        chain(data.skip(pos)) is Some,
        audio_in(data.skip(pos)) == data.skip(block_end(data, h)),
        chain(with_block(data, h, kind, payload).skip(pos)) == Some(
            (
                blocks_in(data.skip(pos)).push(Block { kind: (kind % 128) as u8, payload }),
                audio_in(data.skip(pos)),
            ),
        ),
    decreases data.len() - pos,
{
    let out = with_block(data, h, kind, payload);
    let new = Block { kind: (kind % 128) as u8, payload };
    let rest = data.skip(pos);
    let end = block_end(data, pos);
    assert(be24_at(rest, 1) == be24_at(data, pos + 1));
    if data[pos] >= 128 {
        let audio = data.skip(end);
        let tail = make_block(true, kind, payload) + audio;
        lemma_chain_block(true, kind, payload, audio);
        assert(chain(tail) == Some((seq![new], audio)));
        let orest = out.skip(pos);
        assert(orest.skip(end - pos) =~= tail);
        assert(be24_at(orest, 1) == be24_at(rest, 1));
        assert(orest.subrange(4, end - pos) =~= rest.subrange(4, end - pos));
        assert(rest.skip(end - pos) =~= audio);
        let block = Block { kind: (rest[0] % 128) as u8, payload: rest.subrange(4, end - pos) };
        assert(seq![block] + seq![new] =~= seq![block].push(new));
    } else {
        lemma_insert(data, end, h, kind, payload);
        let orest = out.skip(pos);
        assert(be24_at(orest, 1) == be24_at(rest, 1));
        assert(orest.skip(end - pos) =~= out.skip(end));
        assert(rest.skip(end - pos) =~= data.skip(end));
        assert(orest.subrange(4, end - pos) =~= rest.subrange(4, end - pos));
        let block = Block { kind: (rest[0] % 128) as u8, payload: rest.subrange(4, end - pos) };
        let blocks = blocks_in(data.skip(end));
        assert(seq![block] + blocks.push(new) =~= (seq![block] + blocks).push(new));
    }
}

/// Adding a block keeps every block before it and the audio, and the new block
/// is the last one. A block length has 24 bits.
pub proof fn law_block_is_added_last(data: Seq<u8>, kind: u8, payload: Seq<u8>)
    requires
        is_flac(data),
        last_block(data, 4) is Ok,
        payload.len() < 16777216,
    ensures
        ({
            let out = with_block(data, last_block(data, 4)->Ok_0, kind, payload);
            &&& stream(data) matches Some((blocks, audio))
            &&& stream(out) == Some((blocks.push(Block { kind: (kind % 128) as u8, payload }), audio))
        }),
{
    let h = last_block(data, 4)->Ok_0;
    lemma_insert(data, 4, h, kind, payload);
    assert(with_block(data, h, kind, payload).take(4) =~= data.take(4));
}

proof fn lemma_comment_block_bounds(data: Seq<u8>, pos: int)
    requires
        0 <= pos,
    ensures
        comment_block(data, pos) matches Ok(Some(h)) ==> pos <= h && h + 4 <= data.len() && data[h]
            % 128 == 4,
    decreases data.len() - pos,
{
    if pos + 4 <= data.len() && data[pos] % 128 != 4 && block_end(data, pos) <= data.len()
        && data[pos] < 128 {
        lemma_comment_block_bounds(data, block_end(data, pos));
    }
}

/// The data with the block at `h` exchanged for a comment block.
spec fn with_body(data: Seq<u8>, h: int, body: Seq<u8>) -> Seq<u8> {
    data.take(h) + make_block(data[h] >= 128, 4, body) + data.skip(block_end(data, h))
}

#[verifier::rlimit(40)]
proof fn lemma_exchange(data: Seq<u8>, pos: int, h: int, body: Seq<u8>)
    requires
        0 <= pos,
        comment_block(data, pos) == Ok::<Option<int>, FlacError>(Some(h)),
        block_end(data, h) <= data.len(),
        chain(data.skip(pos)) is Some,
        body.len() < 16777216,
    ensures
        chain(with_body(data, h, body).skip(pos)) == Some(
            (exchanged(blocks_in(data.skip(pos)), body), audio_in(data.skip(pos))),
        ),
    decreases data.len() - pos,
{
    lemma_comment_block_bounds(data, pos);
    let out = with_body(data, h, body);
    let rest = data.skip(pos);
    let orest = out.skip(pos);
    let end = block_end(data, pos);
    assert(be24_at(rest, 1) == be24_at(data, pos + 1));
    assert(rest.skip(end - pos) =~= data.skip(end));
    let block = Block { kind: (rest[0] % 128) as u8, payload: rest.subrange(4, end - pos) };
    if pos == h {
        let tail = data.skip(end);
        lemma_chain_block(data[h] >= 128, 4, body, tail);
        assert(orest =~= make_block(data[h] >= 128, 4, body) + tail);
        let new = Block { kind: 4, payload: body };
        if data[pos] >= 128 {
            assert(exchanged(seq![block], body) =~= seq![new]);
        } else {
            lemma_cons(block, blocks_in(tail));
        }
    } else {
        lemma_comment_block_bounds(data, end);
        lemma_exchange(data, end, h, body);
        assert(be24_at(orest, 1) == be24_at(rest, 1));
        assert(orest.skip(end - pos) =~= out.skip(end));
        assert(orest.subrange(4, end - pos) =~= rest.subrange(4, end - pos));
        lemma_cons(block, blocks_in(data.skip(end)));
    }
}

/// Rewriting the comments exchanges the payload of the first comment block and
/// nothing else: every other block, pictures among them, and the audio stay.
pub proof fn law_only_comments_change(data: Seq<u8>, h: int, list: Seq<Seq<u8>>)
    requires
        comment_block(data, 4) == Ok::<Option<int>, FlacError>(Some(h)),
        vendor_readable(data, h),
        stream(data) is Some,
        comment_payload(vendor_of(payload_at(data, h)), list).len() < 16777216,
    ensures
        ({
            let body = comment_payload(vendor_of(payload_at(data, h)), list);
            &&& stream(data) matches Some((blocks, audio))
            &&& stream(with_comments(data, h, list)) == Some((exchanged(blocks, body), audio))
        }),
{
    lemma_comment_block_bounds(data, 4);
    let body = comment_payload(vendor_of(payload_at(data, h)), list);
    assert(with_comments(data, h, list) == with_body(data, h, body));
    lemma_exchange(data, 4, h, body);
    assert(with_comments(data, h, list).take(4) =~= data.take(4));
}

proof fn lemma_packed_read(list: Seq<Seq<u8>>)
    requires
        packed(list).len() < 4294967296,
    ensures
        comments(packed(list), list.len()) == list,
    decreases list.len(),
{
    if list.len() == 0 {
        assert(comments(packed(list), 0) =~= list);
    } else {
        let first = list[0];
        let n = first.len() as int;
        let tail = list.skip(1);
        let all = packed(list);
        lemma_packed_read(tail);
        lemma_le32_read(n);
        assert(le32_at(all, 0) == le32_at(le32(n), 0));
        assert(all.subrange(4, 4 + n) =~= first);
        assert(all.skip(4 + n) =~= packed(tail));
        assert(seq![first] + tail =~= list);
    }
}

proof fn lemma_packed_len(list: Seq<Seq<u8>>)
    ensures
        list.len() * 4 <= packed(list).len(),
    decreases list.len(),
{
    if list.len() > 0 {
        lemma_packed_len(list.skip(1));
    }
}

/// Comments that are written are read back, with the vendor text.
pub proof fn law_comments_are_read_back(vendor: Seq<u8>, list: Seq<Seq<u8>>)
    requires
        comment_payload(vendor, list).len() < 4294967296,
    ensures
        ({
            let body = comment_payload(vendor, list);
            &&& vendor_of(body) == vendor
            &&& declared_count(body) == list.len()
            &&& comments_of(body) == list
            &&& body.len() >= 8 + le32_at(body, 0)
        }),
{
    let body = comment_payload(vendor, list);
    let n = vendor.len() as int;
    let count = list.len() as int;
    let a = le32(n);
    let b = le32(count);
    let rest = packed(list);
    assert(a.len() == 4 && b.len() == 4);
    lemma_packed_len(list);
    lemma_packed_read(list);
    lemma_payload_parts(a, vendor, b, rest);
    assert(body == a + vendor + b + rest);
    lemma_le32_at(body, 0, n);
    lemma_le32_at(body, 4 + n, count);
}

proof fn lemma_payload_parts(a: Seq<u8>, vendor: Seq<u8>, b: Seq<u8>, rest: Seq<u8>)
    requires
        a.len() == 4,
        b.len() == 4,
    ensures
        ({
            let body = a + vendor + b + rest;
            let n = vendor.len() as int;
            &&& body.len() == 8 + n + rest.len()
            &&& body.subrange(0, 4) == a
            &&& body.subrange(4, 4 + n) == vendor
            &&& body.subrange(4 + n, 8 + n) == b
            &&& body.skip(8 + n) == rest
        }),
{
    let body = a + vendor + b + rest;
    let n = vendor.len() as int;
    assert(body.subrange(0, 4) =~= a);
    assert(body.subrange(4, 4 + n) =~= vendor);
    assert(body.subrange(4 + n, 8 + n) =~= b);
    assert(body.skip(8 + n) =~= rest);
}

proof fn lemma_same_prefix_finds(data: Seq<u8>, out: Seq<u8>, pos: int, h: int)
    requires
        0 <= pos,
        comment_block(data, pos) == Ok::<Option<int>, FlacError>(Some(h)),
        h + 4 <= out.len(),
        out.take(h) == data.take(h),
        out[h] % 128 == 4,
    ensures
        comment_block(out, pos) == Ok::<Option<int>, FlacError>(Some(h)),
    decreases data.len() - pos,
{
    lemma_comment_block_bounds(data, pos);
    if pos < h {
        let end = block_end(data, pos);
        lemma_comment_block_bounds(data, end);
        assert(forall|i: int| 0 <= i < h ==> out.take(h)[i] == out[i]);
        assert(forall|i: int| 0 <= i < h ==> data.take(h)[i] == data[i]);
        assert(block_end(out, pos) == end);
        lemma_same_prefix_finds(data, out, end, h);
    }
}

#[verifier::rlimit(40)]
proof fn lemma_body_read(data: Seq<u8>, h: int, body: Seq<u8>)
    requires
        is_flac(data),
        comment_block(data, 4) == Ok::<Option<int>, FlacError>(Some(h)),
        block_end(data, h) <= data.len(),
        body.len() < 16777216,
    ensures
        ({
            let out = with_body(data, h, body);
            &&& is_flac(out)
            &&& comment_block(out, 4) == Ok::<Option<int>, FlacError>(Some(h))
            &&& be24_at(out, h + 1) == body.len()
            &&& block_end(out, h) <= out.len()
            &&& payload_at(out, h) == body
            &&& with_body(out, h, body) == out
        }),
{
    lemma_comment_block_bounds(data, 4);
    let out = with_body(data, h, body);
    let tail = data.skip(block_end(data, h));
    lemma_chain_block(data[h] >= 128, 4, body, tail);
    let part = make_block(data[h] >= 128, 4, body) + tail;
    assert(out.skip(h) =~= part);
    assert(out.take(4) =~= data.take(4));
    assert(out.take(h) =~= data.take(h));
    assert(out[h] == part[0]);
    assert(be24_at(out, h + 1) == be24_at(part, 1));
    lemma_same_prefix_finds(data, out, 4, h);
    assert(payload_at(out, h) =~= part.subrange(4, 4 + body.len() as int));
    assert(out.skip(block_end(out, h)) =~= part.skip(4 + body.len() as int));
    assert(with_body(out, h, body) =~= out);
}

/// Reading the comments after they were rewritten gives what was written, and
/// rewriting them with the same comments changes nothing.
proof fn lemma_rewritten(data: Seq<u8>, h: int, list: Seq<Seq<u8>>)
    requires
        is_flac(data),
        comment_block(data, 4) == Ok::<Option<int>, FlacError>(Some(h)),
        vendor_readable(data, h),
        comment_payload(vendor_of(payload_at(data, h)), list).len() < 16777216,
    ensures
        ({
            let out = with_comments(data, h, list);
            &&& is_flac(out)
            &&& comment_block(out, 4) == Ok::<Option<int>, FlacError>(Some(h))
            &&& comments_complete(out)
            &&& comments_of(payload_at(out, h)) == list
            &&& with_comments(out, h, list) == out
        }),
{
    let vendor = vendor_of(payload_at(data, h));
    let body = comment_payload(vendor, list);
    let out = with_comments(data, h, list);
    assert(out == with_body(data, h, body));
    lemma_body_read(data, h, body);
    law_comments_are_read_back(vendor, list);
    assert(with_comments(out, h, list) == with_body(out, h, body));
}

proof fn lemma_essential(list: Seq<Seq<u8>>)
    ensures
        essential(essential(list)) == essential(list),
        forall|i: int|
            0 <= i < essential(list).len() ==> keeps_text(lossy_text(#[trigger] essential(list)[i])),
    decreases list.len(),
{
    if list.len() > 0 {
        let tail = list.skip(1);
        lemma_essential(tail);
        if keeps_text(lossy_text(list[0])) {
            lemma_cons(list[0], essential(tail));
            assert forall|i: int| 0 <= i < essential(list).len() implies keeps_text(
                lossy_text(#[trigger] essential(list)[i]),
            ) by {
                if i > 0 {
                    assert(essential(list)[i] == essential(tail)[i - 1]);
                }
            }
        }
    }
}

/// A trimmed stream holds only title, artist and lyrics comments, every one of
/// them that was there, and trimming a second time changes nothing.
pub proof fn law_trimming_keeps_the_essentials(data: Seq<u8>, h: int)
    requires
        is_flac(data),
        comment_block(data, 4) == Ok::<Option<int>, FlacError>(Some(h)),
        vendor_readable(data, h),
        comment_payload(
            vendor_of(payload_at(data, h)),
            essential(comments_of(payload_at(data, h))),
        ).len() < 16777216,
    ensures
        ({
            let kept = essential(comments_of(payload_at(data, h)));
            let out = with_comments(data, h, kept);
            &&& comments_of(payload_at(out, h)) == kept
            &&& forall|i: int|
                0 <= i < kept.len() ==> keeps_text(lossy_text(#[trigger] kept[i]))
            &&& is_flac(out)
            &&& comment_block(out, 4) == Ok::<Option<int>, FlacError>(Some(h))
            &&& with_comments(out, h, essential(comments_of(payload_at(out, h)))) == out
        }),
{
    let kept = essential(comments_of(payload_at(data, h)));
    lemma_essential(comments_of(payload_at(data, h)));
    lemma_rewritten(data, h, kept);
}

proof fn lemma_others_append(a: Seq<Seq<u8>>, b: Seq<Seq<u8>>, keys: Seq<Seq<char>>)
    ensures
        others(a + b, keys) == others(a, keys) + others(b, keys),
    decreases a.len(),
{
    if a.len() == 0 {
        assert(a + b =~= b);
        assert(others(a, keys) + others(b, keys) =~= others(b, keys));
    } else {
        lemma_others_append(a.skip(1), b, keys);
        assert((a + b).skip(1) =~= a.skip(1) + b);
        assert((a + b)[0] == a[0]);
        let x = seq![a[0]];
        assert(x + (others(a.skip(1), keys) + others(b, keys)) =~= (x + others(a.skip(1), keys))
            + others(b, keys));
    }
}

proof fn lemma_others_twice(a: Seq<Seq<u8>>, keys: Seq<Seq<char>>)
    ensures
        others(others(a, keys), keys) == others(a, keys),
        forall|i: int|
            0 <= i < others(a, keys).len() ==> !has_key(
                keys,
                key_of(lossy_text(#[trigger] others(a, keys)[i])),
            ),
    decreases a.len(),
{
    if a.len() > 0 {
        let tail = a.skip(1);
        lemma_others_twice(tail, keys);
        if !has_key(keys, key_of(lossy_text(a[0]))) {
            lemma_cons(a[0], others(tail, keys));
            assert forall|i: int| 0 <= i < others(a, keys).len() implies !has_key(
                keys,
                key_of(lossy_text(#[trigger] others(a, keys)[i])),
            ) by {
                if i > 0 {
                    assert(others(a, keys)[i] == others(tail, keys)[i - 1]);
                }
            }
        }
    }
}

proof fn lemma_others_none(list: Seq<Seq<u8>>, keys: Seq<Seq<char>>)
    requires
        forall|i: int| 0 <= i < list.len() ==> has_key(keys, key_of(lossy_text(#[trigger] list[i]))),
    ensures
        others(list, keys) == Seq::<Seq<u8>>::empty(),
    decreases list.len(),
{
    if list.len() > 0 {
        let tail = list.skip(1);
        assert(has_key(keys, key_of(lossy_text(list[0]))));
        assert forall|i: int| 0 <= i < tail.len() implies has_key(
            keys,
            key_of(lossy_text(#[trigger] tail[i])),
        ) by {
            assert(tail[i] == list[i + 1]);
        }
        lemma_others_none(tail, keys);
    }
}

/// Text that is stored is read back as it was.
proof fn lemma_stored_text(text: Seq<char>)
    ensures
        lossy_text(encode_utf8(text)) == text,
{
    encode_utf8_valid_utf8(text);
    encode_utf8_decode_utf8(text);
}

proof fn lemma_entry_keys(entries: Seq<Seq<char>>, k: int)
    requires
        0 <= k < entries.len(),
        entries[k].contains('='),
    ensures
        has_key(entry_keys(entries), key_of(entries[k])),
    decreases entries.len(),
{
    let shorter = entries.drop_last();
    let keys = entry_keys(entries);
    if k == entries.len() - 1 {
        assert(keys.last() == key_of(entries[k]));
        assert(same_ignoring_case(keys[keys.len() - 1], key_of(entries[k])));
    } else {
        lemma_entry_keys(shorter, k);
        assert(shorter[k] == entries[k]);
        let less = entry_keys(shorter);
        let i = choose|i: int|
            0 <= i < less.len() && same_ignoring_case(#[trigger] less[i], key_of(entries[k]));
        assert(keys[i] == less[i]);
    }
}

proof fn lemma_entries_make_way(entries: Seq<Seq<char>>)
    requires
        forall|i: int| 0 <= i < entries.len() ==> (#[trigger] entries[i]).contains('='),
    ensures
        others(encoded(entries), entry_keys(entries)) == Seq::<Seq<u8>>::empty(),
{
    let list = encoded(entries);
    let keys = entry_keys(entries);
    assert forall|i: int| 0 <= i < list.len() implies has_key(
        keys,
        key_of(lossy_text(#[trigger] list[i])),
    ) by {
        assert(entries[i].contains('='));
        lemma_stored_text(entries[i]);
        lemma_entry_keys(entries, i);
    }
    lemma_others_none(list, keys);
}

/// Merging entries replaces, it does not duplicate: afterwards the comments are
/// those of another key, unchanged and in order, and then the entries. Merging
/// the same entries a second time changes nothing.
pub proof fn law_merging_replaces(list: Seq<Seq<u8>>, entries: Seq<Seq<char>>)
    requires
        forall|i: int| 0 <= i < entries.len() ==> (#[trigger] entries[i]).contains('='),
    ensures
        others(merged(list, entries), entry_keys(entries)) == others(list, entry_keys(entries)),
        forall|i: int|
            0 <= i < others(list, entry_keys(entries)).len() ==> !has_key(
                entry_keys(entries),
                key_of(lossy_text(#[trigger] others(list, entry_keys(entries))[i])),
            ),
        merged(merged(list, entries), entries) == merged(list, entries),
{
    let keys = entry_keys(entries);
    lemma_others_append(others(list, keys), encoded(entries), keys);
    lemma_others_twice(list, keys);
    lemma_entries_make_way(entries);
    assert(others(list, keys) + Seq::<Seq<u8>>::empty() =~= others(list, keys));
}

/// Merging entries into a stream that has a comment block leaves exactly the
/// merged comments in it, and doing so a second time changes nothing.
pub proof fn law_upsert_is_idempotent(data: Seq<u8>, h: int, entries: Seq<Seq<char>>)
    requires
        is_flac(data),
        comment_block(data, 4) == Ok::<Option<int>, FlacError>(Some(h)),
        vendor_readable(data, h),
        forall|i: int| 0 <= i < entries.len() ==> (#[trigger] entries[i]).contains('='),
        comment_payload(
            vendor_of(payload_at(data, h)),
            merged(comments_of(payload_at(data, h)), entries),
        ).len() < 16777216,
    ensures
        with_entries(data, entries) matches Ok(out) && {
            &&& comments_complete(out)
            &&& comments_of(payload_at(out, h)) == merged(
                comments_of(payload_at(data, h)),
                entries,
            )
            &&& with_entries(out, entries) == Ok::<Seq<u8>, FlacError>(out)
        },
{
    let list = comments_of(payload_at(data, h));
    lemma_rewritten(data, h, merged(list, entries));
    law_merging_replaces(list, entries);
}

#[verifier::rlimit(40)]
proof fn lemma_added_block_is_found(data: Seq<u8>, pos: int, h: int, payload: Seq<u8>)
    requires
        0 <= pos,
        comment_block(data, pos) == Ok::<Option<int>, FlacError>(None),
        last_block(data, pos) == Ok::<int, FlacError>(h),
        payload.len() < 16777216,
    ensures
        pos <= h,
        block_end(data, h) <= data.len(),
        comment_block(with_block(data, h, 4, payload), pos) == Ok::<Option<int>, FlacError>(
            Some(block_end(data, h)),
        ),
    decreases data.len() - pos,
{
    let out = with_block(data, h, 4, payload);
    let end = block_end(data, pos);
    lemma_insert(data, pos, h, 4, payload);
    if data[pos] >= 128 {
        assert(pos == h);
        assert(be24_at(out, pos + 1) == be24_at(data, pos + 1));
        let audio = data.skip(end);
        lemma_chain_block(true, 4, payload, audio);
        let part = make_block(true, 4, payload) + audio;
        assert(out.skip(end) =~= part);
        assert(out[end] == part[0]);
        assert(out.len() >= end + 4);
        assert(comment_block(out, end) == Ok::<Option<int>, FlacError>(Some(end)));
    } else {
        lemma_added_block_is_found(data, end, h, payload);
        assert(be24_at(out, pos + 1) == be24_at(data, pos + 1));
        assert(out[pos] == data[pos]);
    }
}

/// Merging entries into a stream without a comment block adds one that holds
/// exactly the entries. There is then one to merge into: doing so a second time
/// changes nothing.
#[verifier::rlimit(40)]
pub proof fn law_upsert_adds_one_block(data: Seq<u8>, entries: Seq<Seq<char>>)
    requires
        is_flac(data),
        comment_block(data, 4) == Ok::<Option<int>, FlacError>(None),
        last_block(data, 4) is Ok,
        forall|i: int| 0 <= i < entries.len() ==> (#[trigger] entries[i]).contains('='),
        comment_payload(Seq::empty(), encoded(entries)).len() < 16777216,
    ensures
        with_entries(data, entries) matches Ok(out) && {
            &&& comment_block(out, 4) matches Ok(Some(h))
            &&& comments_of(payload_at(out, h)) == encoded(entries)
            &&& comments_complete(out)
            &&& with_entries(out, entries) == Ok::<Seq<u8>, FlacError>(out)
        },
{
    let last = last_block(data, 4)->Ok_0;
    let vendor = Seq::<u8>::empty();
    let list = encoded(entries);
    let body = comment_payload(vendor, list);
    let out = with_block(data, last, 4, body);
    lemma_added_block_is_found(data, 4, last, body);
    let h = block_end(data, last);
    let audio = data.skip(h);
    let part = make_block(true, 4, body) + audio;
    lemma_chain_block(true, 4, body, audio);
    assert(out.skip(h) =~= part);
    assert(out.take(4) =~= data.take(4)) by {
        lemma_insert(data, 4, last, 4, body);
    }
    assert(out[h] == part[0]);
    assert(be24_at(out, h + 1) == be24_at(part, 1));
    assert(payload_at(out, h) =~= part.subrange(4, 4 + body.len() as int));
    law_comments_are_read_back(vendor, list);
    lemma_entries_make_way(entries);
    assert(merged(list, entries) =~= list);
    assert(out.skip(block_end(out, h)) =~= part.skip(4 + body.len() as int));
    assert(with_comments(out, h, list) =~= out);
}

/// How many of the blocks hold comments.
pub open spec fn comment_blocks(blocks: Seq<Block>) -> nat
    decreases blocks.len(),
{
    if blocks.len() == 0 {
        0
    } else {
        comment_blocks(blocks.skip(1)) + if blocks[0].kind == 4 {
            1nat
        } else {
            0
        }
    }
}

proof fn lemma_exchanged_count(blocks: Seq<Block>, payload: Seq<u8>)
    ensures
        comment_blocks(exchanged(blocks, payload)) == comment_blocks(blocks),
    decreases blocks.len(),
{
    if blocks.len() > 0 {
        lemma_exchanged_count(blocks.skip(1), payload);
        lemma_cons(Block { kind: 4, payload }, blocks.skip(1));
        lemma_cons(blocks[0], exchanged(blocks.skip(1), payload));
    }
}

proof fn lemma_push_count(blocks: Seq<Block>, block: Block)
    ensures
        comment_blocks(blocks.push(block)) == comment_blocks(blocks) + if block.kind == 4 {
            1nat
        } else {
            0
        },
    decreases blocks.len(),
{
    if blocks.len() > 0 {
        lemma_push_count(blocks.skip(1), block);
        assert(blocks.push(block).skip(1) =~= blocks.skip(1).push(block));
    } else {
        assert(blocks.push(block).skip(1) =~= Seq::<Block>::empty());
        assert(comment_blocks(Seq::<Block>::empty()) == 0);
    }
}

proof fn lemma_found_count(data: Seq<u8>, pos: int)
    requires
        0 <= pos <= data.len(),
        chain(data.skip(pos)) is Some,
    ensures
        comment_block(data, pos) matches Ok(found) && match found {
            Some(_) => comment_blocks(blocks_in(data.skip(pos))) >= 1,
            None => comment_blocks(blocks_in(data.skip(pos))) == 0,
        },
    decreases data.len() - pos,
{
    let rest = data.skip(pos);
    let end = block_end(data, pos);
    assert(be24_at(rest, 1) == be24_at(data, pos + 1));
    assert(rest.skip(end - pos) =~= data.skip(end));
    let block = Block { kind: (rest[0] % 128) as u8, payload: rest.subrange(4, end - pos) };
    if data[pos] >= 128 {
        assert(seq![block].skip(1) =~= Seq::<Block>::empty());
        assert(comment_blocks(Seq::<Block>::empty()) == 0);
        assert(comment_blocks(seq![block]) == if block.kind == 4 { 1nat } else { 0 });
    } else {
        lemma_found_count(data, end);
        lemma_cons(block, blocks_in(data.skip(end)));
    }
}

/// Merging entries never adds a second comment block: a stream without one gets
/// one, any other keeps the number it had.
pub proof fn law_no_second_comment_block(data: Seq<u8>, entries: Seq<Seq<char>>)
    requires
        stream(data) is Some,
        comments_complete(data),
        comment_block(data, 4) matches Ok(Some(h)) ==> comment_payload(
            vendor_of(payload_at(data, h)),
            merged(comments_of(payload_at(data, h)), entries),
        ).len() < 16777216,
        comment_block(data, 4) matches Ok(None) ==> comment_payload(
            Seq::empty(),
            encoded(entries),
        ).len() < 16777216,
    ensures
        with_entries(data, entries) matches Ok(out) && stream(data) matches Some((before, audio))
            && stream(out) matches Some((after, audio2)) && {
            &&& audio2 == audio
            &&& comment_blocks(after) == if comment_blocks(before) == 0 {
                1
            } else {
                comment_blocks(before)
            }
        },
{
    lemma_found_count(data, 4);
    match comment_block(data, 4) {
        Ok(Some(h)) => {
            let list = merged(comments_of(payload_at(data, h)), entries);
            law_only_comments_change(data, h, list);
            lemma_exchanged_count(
                blocks_in(data.skip(4)),
                comment_payload(vendor_of(payload_at(data, h)), list),
            );
        },
        Ok(None) => {
            let body = comment_payload(Seq::empty(), encoded(entries));
            lemma_whole_chain_has_last(data, 4);
            law_block_is_added_last(data, 4, body);
            lemma_push_count(blocks_in(data.skip(4)), Block { kind: 4, payload: body });
        },
        Err(_) => {},
    }
}

proof fn lemma_whole_chain_has_last(data: Seq<u8>, pos: int)
    requires
        0 <= pos <= data.len(),
        chain(data.skip(pos)) is Some,
    ensures
        last_block(data, pos) is Ok,
    decreases data.len() - pos,
{
    let rest = data.skip(pos);
    let end = block_end(data, pos);
    assert(be24_at(rest, 1) == be24_at(data, pos + 1));
    assert(rest.skip(end - pos) =~= data.skip(end));
    if data[pos] < 128 {
        lemma_whole_chain_has_last(data, end);
    }
}

proof fn lemma_essential_append(a: Seq<Seq<u8>>, b: Seq<Seq<u8>>)
    ensures
        essential(a + b) == essential(a) + essential(b),
    decreases a.len(),
{
    if a.len() == 0 {
        assert(a + b =~= b);
        assert(essential(a) + essential(b) =~= essential(b));
    } else {
        lemma_essential_append(a.skip(1), b);
        assert((a + b).skip(1) =~= a.skip(1) + b);
        assert((a + b)[0] == a[0]);
        if keeps_text(lossy_text(a[0])) {
            assert(seq![a[0]] + (essential(a.skip(1)) + essential(b)) =~= (seq![a[0]] + essential(
                a.skip(1),
            )) + essential(b));
        }
    }
}

proof fn lemma_essential_is_shorter(list: Seq<Seq<u8>>)
    ensures
        packed(essential(list)).len() <= packed(list).len(),
    decreases list.len(),
{
    if list.len() > 0 {
        lemma_essential_is_shorter(list.skip(1));
        if keeps_text(lossy_text(list[0])) {
            lemma_cons(list[0], essential(list.skip(1)));
            assert(essential(list)[0] == list[0]);
        }
    }
}

proof fn lemma_lyrics_are_essential(text: Seq<char>)
    ensures
        lyrics_entry(text).contains('='),
        essential(encoded(seq![lyrics_entry(text)])) == encoded(seq![lyrics_entry(text)]),
        encoded(seq![lyrics_entry(text)]) == seq![encode_utf8(lyrics_entry(text))],
{
    let entry = lyrics_entry(text);
    let list = encoded(seq![entry]);
    assert(list =~= seq![encode_utf8(entry)]);
    reveal_strlit("LYRICS=");
    reveal_strlit("LYRICS");
    assert(entry[6] == '=');
    lemma_first_index(entry, '=', 6);
    assert(key_of(entry) =~= "LYRICS"@);
    lemma_stored_text(entry);
    assert(list.skip(1) =~= Seq::<Seq<u8>>::empty());
    assert(essential(list.skip(1)) == Seq::<Seq<u8>>::empty());
    assert(seq![list[0]] + Seq::<Seq<u8>>::empty() =~= list);
}

/// Trimming and lyrics are independent: lyrics that were put in are still there
/// after the comments were trimmed, as the last comment.
pub proof fn law_lyrics_survive_trimming(data: Seq<u8>, h: int, text: Seq<char>)
    requires
        is_flac(data),
        comment_block(data, 4) == Ok::<Option<int>, FlacError>(Some(h)),
        vendor_readable(data, h),
        comment_payload(
            vendor_of(payload_at(data, h)),
            merged(comments_of(payload_at(data, h)), seq![lyrics_entry(text)]),
        ).len() < 16777216,
    ensures
        with_entries(data, seq![lyrics_entry(text)]) matches Ok(out) && {
            let kept = essential(comments_of(payload_at(out, h)));
            let trimmed = with_comments(out, h, kept);
            &&& comment_block(out, 4) == Ok::<Option<int>, FlacError>(Some(h))
            &&& comments_of(payload_at(trimmed, h)) == kept
            &&& kept.len() > 0
            &&& kept.last() == encode_utf8(lyrics_entry(text))
        },
{
    let entries = seq![lyrics_entry(text)];
    let vendor = vendor_of(payload_at(data, h));
    let list = comments_of(payload_at(data, h));
    let all = merged(list, entries);
    let body = comment_payload(vendor, all);
    let out = with_comments(data, h, all);
    lemma_rewritten(data, h, all);
    assert(out == with_body(data, h, body));
    lemma_body_read(data, h, body);
    law_comments_are_read_back(vendor, all);
    lemma_lyrics_are_essential(text);
    lemma_essential_append(others(list, entry_keys(entries)), encoded(entries));
    lemma_essential_is_shorter(all);
    let kept = essential(all);
    assert(kept.last() == encode_utf8(lyrics_entry(text)));
    assert(comment_payload(vendor, kept).len() <= body.len());
    lemma_rewritten(out, h, kept);
}

#[verifier::rlimit(40)]
proof fn lemma_other_block(data: Seq<u8>, pos: int, last: int, kind: u8, payload: Seq<u8>)
    requires
        0 <= pos,
        kind % 128 != 4,
        last_block(data, pos) == Ok::<int, FlacError>(last),
        payload.len() < 16777216,
    ensures
        ({
            let out = with_block(data, last, kind, payload);
            &&& comment_block(out, pos) == comment_block(data, pos)
            &&& comment_block(data, pos) matches Ok(found)
            &&& found matches Some(h) ==> block_end(data, h) <= data.len() && be24_at(out, h + 1)
                == be24_at(data, h + 1) && block_end(out, h) <= out.len() && payload_at(out, h)
                == payload_at(data, h)
        }),
    decreases data.len() - pos,
{
    let out = with_block(data, last, kind, payload);
    let end = block_end(data, pos);
    lemma_insert(data, pos, last, kind, payload);
    if data[pos] < 128 {
        lemma_insert(data, end, last, kind, payload);
    }
    assert(out.len() == data.len() + 4 + payload.len());
    assert(be24_at(out, pos + 1) == be24_at(data, pos + 1));
    assert(out[pos] % 128 == data[pos] % 128);
    if data[pos] % 128 == 4 {
        assert(end <= block_end(data, last));
        assert(payload_at(out, pos) =~= payload_at(data, pos));
    } else if data[pos] >= 128 {
        let audio = data.skip(end);
        lemma_chain_block(true, kind, payload, audio);
        let part = make_block(true, kind, payload) + audio;
        assert(out.skip(end) =~= part);
        assert(out[end] == part[0]);
        assert(be24_at(out, end + 1) == be24_at(part, 1));
        assert(comment_block(out, end) == Ok::<Option<int>, FlacError>(None));
    } else {
        lemma_other_block(data, end, last, kind, payload);
    }
}

/// Putting a cover in leaves the comments as they are: they are found at the
/// same place with the same content, or there are still none.
pub proof fn law_cover_keeps_the_comments(data: Seq<u8>, cover: Seq<u8>)
    requires
        is_flac(data),
        last_block(data, 4) is Ok,
        picture_payload(cover).len() < 16777216,
    ensures
        ({
            let out = with_block(data, last_block(data, 4)->Ok_0, 6, picture_payload(cover));
            &&& is_flac(out)
            &&& comment_block(out, 4) == comment_block(data, 4)
            &&& comment_block(data, 4) matches Ok(found)
            &&& found matches Some(h) ==> payload_at(out, h) == payload_at(data, h)
            &&& comments_complete(out) <==> comments_complete(data)
        }),
{
    let last = last_block(data, 4)->Ok_0;
    let out = with_block(data, last, 6, picture_payload(cover));
    lemma_other_block(data, 4, last, 6, picture_payload(cover));
    lemma_insert(data, 4, last, 6, picture_payload(cover));
    assert(out.take(4) =~= data.take(4));
}

proof fn lemma_body_again(data: Seq<u8>, h: int, one: Seq<u8>, two: Seq<u8>)
    requires
        is_flac(data),
        comment_block(data, 4) == Ok::<Option<int>, FlacError>(Some(h)),
        block_end(data, h) <= data.len(),
        one.len() < 16777216,
    ensures
        with_body(with_body(data, h, one), h, two) == with_body(data, h, two),
{
    lemma_comment_block_bounds(data, 4);
    lemma_body_read(data, h, one);
    let out = with_body(data, h, one);
    let tail = data.skip(block_end(data, h));
    lemma_chain_block(data[h] >= 128, 4, one, tail);
    let part = make_block(data[h] >= 128, 4, one) + tail;
    assert(out.skip(h) =~= part);
    assert(out[h] == part[0]);
    assert(out.take(h) =~= data.take(h));
    assert(out.skip(block_end(out, h)) =~= part.skip(4 + one.len() as int));
}

/// The last write wins: entries that were merged in leave no trace once others
/// with the same keys are merged in.
pub proof fn law_last_entries_win(
    data: Seq<u8>,
    h: int,
    one: Seq<Seq<char>>,
    two: Seq<Seq<char>>,
)
    requires
        is_flac(data),
        comment_block(data, 4) == Ok::<Option<int>, FlacError>(Some(h)),
        vendor_readable(data, h),
        entry_keys(one) == entry_keys(two),
        forall|i: int| 0 <= i < one.len() ==> (#[trigger] one[i]).contains('='),
        comment_payload(
            vendor_of(payload_at(data, h)),
            merged(comments_of(payload_at(data, h)), one),
        ).len() < 16777216,
    ensures
        with_entries(data, one) matches Ok(out) && with_entries(out, two) == with_entries(data, two),
{
    let vendor = vendor_of(payload_at(data, h));
    let list = comments_of(payload_at(data, h));
    let first = merged(list, one);
    let body = comment_payload(vendor, first);
    let out = with_comments(data, h, first);
    law_merging_replaces(list, one);
    assert(merged(first, two) == merged(list, two));
    lemma_rewritten(data, h, first);
    lemma_body_read(data, h, body);
    law_comments_are_read_back(vendor, first);
    assert(out == with_body(data, h, body));
    let last = comment_payload(vendor, merged(list, two));
    lemma_body_again(data, h, body, last);
    assert(with_comments(out, h, merged(first, two)) == with_body(out, h, last));
    assert(with_comments(data, h, merged(list, two)) == with_body(data, h, last));
}

proof fn lemma_new_block_again(data: Seq<u8>, last: int, one: Seq<u8>, two: Seq<u8>)
    requires
        is_flac(data),
        comment_block(data, 4) == Ok::<Option<int>, FlacError>(None),
        last_block(data, 4) == Ok::<int, FlacError>(last),
        one.len() < 16777216,
    ensures
        ({
            let out = with_block(data, last, 4, one);
            let h = block_end(data, last);
            &&& is_flac(out)
            &&& comment_block(out, 4) == Ok::<Option<int>, FlacError>(Some(h))
            &&& payload_at(out, h) == one
            &&& with_body(out, h, two) == with_block(data, last, 4, two)
        }),
{
    let out = with_block(data, last, 4, one);
    lemma_added_block_is_found(data, 4, last, one);
    lemma_insert(data, 4, last, 4, one);
    let h = block_end(data, last);
    let audio = data.skip(h);
    let part = make_block(true, 4, one) + audio;
    lemma_chain_block(true, 4, one, audio);
    assert(out.skip(h) =~= part);
    assert(out.take(4) =~= data.take(4));
    assert(out[h] == part[0]);
    assert(be24_at(out, h + 1) == be24_at(part, 1));
    assert(payload_at(out, h) =~= part.subrange(4, 4 + one.len() as int));
    assert(out.skip(block_end(out, h)) =~= audio) by {
        assert(out.skip(block_end(out, h)) =~= part.skip(4 + one.len() as int));
    }
    let front = data.update(last, (data[last] % 128) as u8).take(h);
    assert(out.take(h) =~= front);
}

/// The last write wins in a stream without a comment block, too: entries that
/// were added in a block of their own leave no trace once others with the same
/// keys are merged in.
pub proof fn law_last_entries_win_in_a_new_block(
    data: Seq<u8>,
    one: Seq<Seq<char>>,
    two: Seq<Seq<char>>,
)
    requires
        is_flac(data),
        comment_block(data, 4) == Ok::<Option<int>, FlacError>(None),
        last_block(data, 4) is Ok,
        entry_keys(one) == entry_keys(two),
        forall|i: int| 0 <= i < one.len() ==> (#[trigger] one[i]).contains('='),
        comment_payload(Seq::empty(), encoded(one)).len() < 16777216,
    ensures
        with_entries(data, one) matches Ok(out) && with_entries(out, two) == with_entries(data, two),
{
    let last = last_block(data, 4)->Ok_0;
    let none = Seq::<u8>::empty();
    let body = comment_payload(none, encoded(one));
    let new = comment_payload(none, encoded(two));
    let h = block_end(data, last);
    let out = with_block(data, last, 4, body);
    lemma_new_block_again(data, last, body, new);
    law_comments_are_read_back(none, encoded(one));
    lemma_entries_make_way(one);
    assert(merged(encoded(one), two) =~= encoded(two));
    assert(with_comments(out, h, encoded(two)) == with_body(out, h, new));
}

} // verus!
