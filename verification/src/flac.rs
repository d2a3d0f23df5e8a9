//! FLAC metadata blocks and the comments in them.

use vstd::prelude::*;
use vstd::slice::slice_subrange;
use vstd::utf8::encode_utf8;
use crate::bytes::{
    append, be24, be24_at, be32, begins_with, copy_range, first_index, le32, le32_at,
    lemma_first_index_props, push_be24,
    push_be32, push_le32, read_be24, read_le32, starts_with,
};
use crate::id3::{cover_mime, mime_of};
use crate::text::{
    append_chars, append_str, byte_views, chars_of, decode_lossy, eq_ignoring_case, find_char,
    same_ignoring_case, string_of, texts, lossy_text,
};

verus! {

broadcast use crate::bytes::number_lengths;

/// Why a FLAC stream cannot be edited.
#[derive(Clone, Copy, Debug, PartialEq, Eq, Structural)]
pub enum FlacError {
    /// The stream does not open with the FLAC marker.
    NotFlac,
    /// The data ends before the header of a metadata block.
    TruncatedMetadata,
    /// The data ends within a metadata block.
    TruncatedBlock,
}

impl FlacError {
    /// The text shown for the error.
    pub open spec fn text(self) -> Seq<char> {
        match self {
            FlacError::NotFlac => "not FLAC"@,
            FlacError::TruncatedMetadata => "truncated FLAC metadata"@,
            FlacError::TruncatedBlock => "truncated FLAC metadata block"@,
        }
    }

    /// The text shown for the error.
    pub fn message(&self) -> (m: &'static str)
        ensures
            m@ == self.text(),
    {
        match self {
            FlacError::NotFlac => "not FLAC",
            FlacError::TruncatedMetadata => "truncated FLAC metadata",
            FlacError::TruncatedBlock => "truncated FLAC metadata block",
        }
    }
}

/// Whether the data opens with the FLAC marker.
pub open spec fn is_flac(data: Seq<u8>) -> bool {
    begins_with(data, seq![0x66u8, 0x4cu8, 0x61u8, 0x43u8])
}

/// The position behind the block whose header is at `pos`.
pub open spec fn block_end(data: Seq<u8>, pos: int) -> int {
    pos + 4 + be24_at(data, pos + 1)
}

/// The header of the last metadata block, from the block at `pos` on.
pub open spec fn last_block(data: Seq<u8>, pos: int) -> Result<int, FlacError>
    decreases data.len() - pos,
{
    if pos + 4 > data.len() {
        Err(FlacError::TruncatedMetadata)
    } else if block_end(data, pos) > data.len() {
        Err(FlacError::TruncatedBlock)
    } else if data[pos] >= 128 {
        Ok(pos)
    } else {
        last_block(data, block_end(data, pos))
    }
}

/// The header of the first comment block, from the block at `pos` on. A comment
/// block counts as found before its own length is looked at.
pub open spec fn comment_block(data: Seq<u8>, pos: int) -> Result<Option<int>, FlacError>
    decreases data.len() - pos,
{
    if pos + 4 > data.len() {
        Err(FlacError::TruncatedMetadata)
    } else if data[pos] % 128 == 4 {
        Ok(Some(pos))
    } else if block_end(data, pos) > data.len() {
        Err(FlacError::TruncatedBlock)
    } else if data[pos] >= 128 {
        Ok(None)
    } else {
        comment_block(data, block_end(data, pos))
    }
}

/// A metadata block as it is stored.
pub open spec fn make_block(last: bool, kind: u8, payload: Seq<u8>) -> Seq<u8> {
    seq![(kind % 128 + if last { 128int } else { 0 }) as u8] + be24(payload.len() as int) + payload
}

/// The data with a block added behind the last one, whose header is at `last`.
/// The new block takes over the mark of the last block.
pub open spec fn with_block(data: Seq<u8>, last: int, kind: u8, payload: Seq<u8>) -> Seq<u8> {
    let end = block_end(data, last);
    data.update(last, (data[last] % 128) as u8).take(end) + make_block(true, kind, payload)
        + data.skip(end)
}

fn opens_with_flac(data: &[u8]) -> (yes: bool)
    ensures
        yes == is_flac(data@),
{
    let marker: [u8; 4] = [0x66, 0x4c, 0x61, 0x43];
    assert(marker@ =~= seq![0x66u8, 0x4cu8, 0x61u8, 0x43u8]);
    starts_with(data, &marker)
}

proof fn lemma_last_block_bounds(data: Seq<u8>, pos: int)
    requires
        0 <= pos,
    ensures
        last_block(data, pos) matches Ok(h) ==> pos <= h && h + 4 <= block_end(data, h)
            <= data.len(),
    decreases data.len() - pos,
{
    if pos + 4 <= data.len() && block_end(data, pos) <= data.len() && data[pos] < 128 {
        lemma_last_block_bounds(data, block_end(data, pos));
    }
}

fn find_last(data: &[u8]) -> (found: Result<usize, FlacError>)
    requires
        data@.len() >= 4,
    ensures
        match found {
            Ok(h) => last_block(data@, 4) == Ok::<int, FlacError>(h as int),
            Err(e) => last_block(data@, 4) == Err::<int, FlacError>(e),
        },
{
    let mut pos: usize = 4;
    loop
        invariant
            4 <= pos <= data@.len(),
            last_block(data@, pos as int) == last_block(data@, 4),
        decreases data@.len() - pos,
    {
        if data.len() - pos < 4 {
            return Err(FlacError::TruncatedMetadata);
        }
        let len = read_be24(data, pos + 1);
        if len > data.len() - pos - 4 {
            return Err(FlacError::TruncatedBlock);
        }
        if data[pos] >= 128 {
            return Ok(pos);
        }
        pos = pos + 4 + len;
    }
}

fn find_comments(data: &[u8]) -> (found: Result<Option<usize>, FlacError>)
    requires
        data@.len() >= 4,
    ensures
        match found {
            Ok(Some(h)) => comment_block(data@, 4) == Ok::<Option<int>, FlacError>(Some(h as int))
                && 4 <= h && h + 4 <= data@.len() && data@[h as int] % 128 == 4,
            Ok(None) => comment_block(data@, 4) == Ok::<Option<int>, FlacError>(None),
            Err(e) => comment_block(data@, 4) == Err::<Option<int>, FlacError>(e),
        },
{
    let mut pos: usize = 4;
    loop
        invariant
            4 <= pos <= data@.len(),
            comment_block(data@, pos as int) == comment_block(data@, 4),
        decreases data@.len() - pos,
    {
        if data.len() - pos < 4 {
            return Err(FlacError::TruncatedMetadata);
        }
        let len = read_be24(data, pos + 1);
        if data[pos] % 128 == 4 {
            return Ok(Some(pos));
        }
        if len > data.len() - pos - 4 {
            return Err(FlacError::TruncatedBlock);
        }
        if data[pos] >= 128 {
            return Ok(None);
        }
        pos = pos + 4 + len;
    }
}

fn push_block(out: &mut Vec<u8>, last: bool, kind: u8, payload: &[u8])
    ensures
        final(out)@ == old(out)@ + make_block(last, kind, payload@),
{
    out.push(kind % 128 + if last { 128 } else { 0 });
    push_be24(out, payload.len());
    append(out, payload);
    assert(out@ =~= old(out)@ + make_block(last, kind, payload@));
}

/// Adds a metadata block behind the last one. The new block becomes the last,
/// and the one before it loses that mark.
pub fn insert_flac_block(data: &mut Vec<u8>, block_type: u8, payload: &[u8]) -> (done: Result<
    (),
    FlacError,
>)
    ensures
        match done {
            Ok(()) => is_flac(old(data)@) && match last_block(old(data)@, 4) {
                Ok(h) => final(data)@ == with_block(old(data)@, h, block_type, payload@),
                Err(_) => false,
            },
            Err(e) => final(data)@ == old(data)@ && if is_flac(old(data)@) {
                last_block(old(data)@, 4) == Err::<int, FlacError>(e)
            } else {
                e == FlacError::NotFlac
            },
        },
{
    if !opens_with_flac(data) {
        return Err(FlacError::NotFlac);
    }
    match find_last(data) {
        Err(e) => Err(e),
        Ok(header) => {
            proof {
                lemma_last_block_bounds(data@, 4);
            }
            let total = data.len();
            let end = header + 4 + read_be24(data, header + 1);
            let mut out = copy_range(data, 0, end);
            out[header] = out[header] % 128;
            push_block(&mut out, true, block_type, payload);
            append(&mut out, slice_subrange(data, end, total));
            assert(out@ =~= with_block(data@, header as int, block_type, payload@));
            *data = out;
            Ok(())
        },
    }
}

/// The comments in `rest`, at most `count` of them, as far as they are
/// complete. Each is a 32-bit length and that many bytes.
pub open spec fn comments(rest: Seq<u8>, count: nat) -> Seq<Seq<u8>>
    decreases count,
{
    if count == 0 || rest.len() < 4 || 4 + le32_at(rest, 0) > rest.len() {
        Seq::empty()
    } else {
        let end = 4 + le32_at(rest, 0);
        seq![rest.subrange(4, end)] + comments(rest.skip(end), (count - 1) as nat)
    }
}

/// The payload of the block at `h`.
pub open spec fn payload_at(data: Seq<u8>, h: int) -> Seq<u8> {
    data.subrange(h + 4, block_end(data, h))
}

/// Whether the block at `h` holds a whole vendor text and a comment count.
pub open spec fn vendor_readable(data: Seq<u8>, h: int) -> bool {
    &&& block_end(data, h) <= data.len()
    &&& be24_at(data, h + 1) >= 8
    &&& 8 + le32_at(payload_at(data, h), 0) <= be24_at(data, h + 1)
}

/// The vendor text in a comment payload.
pub open spec fn vendor_of(body: Seq<u8>) -> Seq<u8> {
    body.subrange(4, 4 + le32_at(body, 0))
}

/// The number of comments that a comment payload declares.
pub open spec fn declared_count(body: Seq<u8>) -> int {
    le32_at(body, 4 + le32_at(body, 0))
}

/// The comments that stand in a comment payload.
pub open spec fn comments_of(body: Seq<u8>) -> Seq<Seq<u8>> {
    comments(body.skip(8 + le32_at(body, 0)), declared_count(body) as nat)
}

/// Comments one after the other, each behind its length.
pub open spec fn packed(list: Seq<Seq<u8>>) -> Seq<u8>
    decreases list.len(),
{
    if list.len() == 0 {
        Seq::empty()
    } else {
        le32(list[0].len() as int) + list[0] + packed(list.skip(1))
    }
}

/// The payload of a comment block.
pub open spec fn comment_payload(vendor: Seq<u8>, list: Seq<Seq<u8>>) -> Seq<u8> {
    le32(vendor.len() as int) + vendor + le32(list.len() as int) + packed(list)
}

/// The data with the payload of the comment block at `h` exchanged.
pub open spec fn with_comments(data: Seq<u8>, h: int, list: Seq<Seq<u8>>) -> Seq<u8> {
    let body = comment_payload(vendor_of(payload_at(data, h)), list);
    data.take(h) + make_block(data[h] >= 128, 4, body) + data.skip(block_end(data, h))
}

/// What stands before the first equals sign.
pub open spec fn key_of(text: Seq<char>) -> Seq<char> {
    text.take(first_index(text, '='))
}

fn read_comments(body: &[u8], from: usize, count: usize) -> (list: Vec<Vec<u8>>)
    requires
        from <= body@.len(),
    ensures
        byte_views(list@) == comments(body@.skip(from as int), count as nat),
{
    let mut list: Vec<Vec<u8>> = Vec::new();
    let ghost want = comments(body@.skip(from as int), count as nat);
    let mut p: usize = from;
    let mut left: usize = count;
    assert(byte_views(list@) + want =~= want);
    while left > 0 && body.len() - p >= 4
        invariant
            p <= body@.len(),
            byte_views(list@) + comments(body@.skip(p as int), left as nat) == want,
        ensures
            comments(body@.skip(p as int), left as nat).len() == 0,
        decreases left,
    {
        let ghost rest = body@.skip(p as int);
        let n = read_le32(body, p);
        assert(le32_at(rest, 0) == n);
        if n > body.len() - p - 4 {
            break;
        }
        let comment = copy_range(body, p + 4, p + 4 + n);
        assert(comment@ =~= rest.subrange(4, 4 + n));
        assert(rest.skip(4 + n as int) =~= body@.skip(p + 4 + n));
        let ghost before = byte_views(list@);
        list.push(comment);
        assert(byte_views(list@) =~= before.push(comment@));
        p = p + 4 + n;
        left -= 1;
        assert(byte_views(list@) + comments(body@.skip(p as int), left as nat) =~= before
            + comments(rest, (left + 1) as nat));
    }
    assert(byte_views(list@) =~= want);
    list
}

fn push_comments(out: &mut Vec<u8>, list: &Vec<Vec<u8>>)
    ensures
        final(out)@ == old(out)@ + packed(byte_views(list@)),
{
    let ghost views = byte_views(list@);
    let mut i: usize = 0;
    assert(views.skip(0) =~= views);
    while i < list.len()
        invariant
            i <= list@.len(),
            views == byte_views(list@),
            out@ + packed(views.skip(i as int)) =~= old(out)@ + packed(views),
        decreases list.len() - i,
    {
        let ghost before = out@;
        assert(views.skip(i as int).skip(1) =~= views.skip(i + 1));
        assert(views.skip(i as int)[0] == list@[i as int]@);
        push_le32(out, list[i].len());
        append(out, &list[i]);
        i += 1;
        assert(out@ + packed(views.skip(i as int)) =~= before + packed(views.skip(i - 1)));
    }
    assert(packed(views.skip(list@.len() as int)) =~= Seq::<u8>::empty());
    assert(out@ =~= old(out)@ + packed(views));
}

/// Writes the comment block at `header` anew with the given comments.
fn rewrite_comments(data: &[u8], header: usize, list: &Vec<Vec<u8>>) -> (out: Vec<u8>)
    requires
        header + 4 <= data@.len(),
        vendor_readable(data@, header as int),
    ensures
        out@ == with_comments(data@, header as int, byte_views(list@)),
{
    let total = data.len();
    let end = header + 4 + read_be24(data, header + 1);
    let body = slice_subrange(data, header + 4, end);
    assert(body@ == payload_at(data@, header as int));
    let vendor_len = read_le32(body, 0);
    let vendor = slice_subrange(body, 4, 4 + vendor_len);
    let mut payload: Vec<u8> = Vec::new();
    push_le32(&mut payload, vendor.len());
    append(&mut payload, vendor);
    push_le32(&mut payload, list.len());
    push_comments(&mut payload, list);
    assert(payload@ =~= comment_payload(vendor@, byte_views(list@)));
    let mut out = copy_range(data, 0, header);
    push_block(&mut out, data[header] >= 128, 4, &payload);
    append(&mut out, slice_subrange(data, end, total));
    assert(out@ =~= with_comments(data@, header as int, byte_views(list@)));
    out
}

/// The comments of the block at `header`.
fn stored_comments(data: &[u8], header: usize) -> (list: Vec<Vec<u8>>)
    requires
        header + 4 <= data@.len(),
        vendor_readable(data@, header as int),
    ensures
        byte_views(list@) == comments_of(payload_at(data@, header as int)),
{
    let total = data.len();
    let end = header + 4 + read_be24(data, header + 1);
    let body = slice_subrange(data, header + 4, end);
    let vendor_len = read_le32(body, 0);
    let count = read_le32(body, 4 + vendor_len);
    read_comments(body, 8 + vendor_len, count)
}

fn vendor_is_readable(data: &[u8], header: usize) -> (yes: bool)
    requires
        header + 4 <= data@.len(),
    ensures
        yes == vendor_readable(data@, header as int),
{
    let total = data.len();
    let len = read_be24(data, header + 1);
    if len > total - header - 4 || len < 8 {
        return false;
    }
    let body = slice_subrange(data, header + 4, header + 4 + len);
    assert(body@ == payload_at(data@, header as int));
    read_le32(body, 0) <= len - 8
}

/// Whether the comment block, where there is one, can be read at all.
pub open spec fn comments_readable(data: Seq<u8>) -> bool {
    is_flac(data) ==> match comment_block(data, 4) {
        Ok(Some(h)) => vendor_readable(data, h),
        _ => true,
    }
}

/// Whether the comment block, where there is one, holds as many comments as it
/// declares.
pub open spec fn comments_complete(data: Seq<u8>) -> bool {
    comments_readable(data) && (is_flac(data) ==> match comment_block(data, 4) {
        Ok(Some(h)) => comments_of(payload_at(data, h)).len() == declared_count(payload_at(data, h)),
        _ => true,
    })
}

/// Whether the comment block, where there is one, can be read at all.
pub fn comments_are_readable(data: &[u8]) -> (yes: bool)
    ensures
        yes == comments_readable(data@),
{
    if !opens_with_flac(data) {
        return true;
    }
    match find_comments(data) {
        Ok(Some(h)) => vendor_is_readable(data, h),
        _ => true,
    }
}

/// Whether the comment block, where there is one, holds as many comments as it
/// declares.
pub fn comments_are_complete(data: &[u8]) -> (yes: bool)
    ensures
        yes == comments_complete(data@),
{
    if !comments_are_readable(data) {
        return false;
    }
    if !opens_with_flac(data) {
        return true;
    }
    match find_comments(data) {
        Ok(Some(h)) => {
            let list = stored_comments(data, h);
            let total = data.len();
            let end = h + 4 + read_be24(data, h + 1);
            let body = slice_subrange(data, h + 4, end);
            let vendor_len = read_le32(body, 0);
            assert(byte_views(list@).len() == list@.len());
            list.len() == read_le32(body, 4 + vendor_len)
        },
        _ => true,
    }
}

/// Whether a trimmed comment block keeps a comment with this text: its key is
/// `TITLE`, `ARTIST` or `LYRICS` in any case.
pub open spec fn keeps_text(text: Seq<char>) -> bool {
    ||| same_ignoring_case(key_of(text), "TITLE"@)
    ||| same_ignoring_case(key_of(text), "ARTIST"@)
    ||| same_ignoring_case(key_of(text), "LYRICS"@)
}

/// The comments that a trimmed block keeps, in their order.
pub open spec fn essential(list: Seq<Seq<u8>>) -> Seq<Seq<u8>>
    decreases list.len(),
{
    if list.len() == 0 {
        Seq::empty()
    } else if keeps_text(lossy_text(list[0])) {
        seq![list[0]] + essential(list.skip(1))
    } else {
        essential(list.skip(1))
    }
}

fn key_slice(text: &[char]) -> (key: &[char])
    ensures
        key@ == key_of(text@),
{
    let k = find_char(text, '=');
    let key = slice_subrange(text, 0, k);
    assert(key@ =~= key_of(text@));
    key
}

/// Whether a trimmed comment block keeps a comment with this text.
pub fn is_essential(text: &str) -> (yes: bool)
    ensures
        yes == keeps_text(text@),
{
    let chars = chars_of(text);
    let key = key_slice(&chars);
    eq_ignoring_case(key, &chars_of("TITLE")) || eq_ignoring_case(key, &chars_of("ARTIST"))
        || eq_ignoring_case(key, &chars_of("LYRICS"))
}

/// Rewrites the first comment block so that it keeps only title, artist and
/// lyrics. Every other block stays as it is.
///
/// `Ok(None)` means that there is no comment block and nothing to rewrite.
pub fn minimal_flac(data: &[u8]) -> (out: Result<Option<Vec<u8>>, FlacError>)
    requires
        comments_readable(data@),
    ensures
        if !is_flac(data@) {
            out == Err::<Option<Vec<u8>>, FlacError>(FlacError::NotFlac)
        } else {
            match comment_block(data@, 4) {
                Err(e) => out == Err::<Option<Vec<u8>>, FlacError>(e),
                Ok(None) => out == Ok::<Option<Vec<u8>>, FlacError>(None),
                Ok(Some(h)) => out matches Ok(Some(new)) && new@ == with_comments(
                    data@,
                    h,
                    essential(comments_of(payload_at(data@, h))),
                ),
            }
        },
{
    if !opens_with_flac(data) {
        return Err(FlacError::NotFlac);
    }
    let header = match find_comments(data) {
        Err(e) => return Err(e),
        Ok(None) => return Ok(None),
        Ok(Some(h)) => h,
    };
    let list = stored_comments(data, header);
    let ghost all = byte_views(list@);
    let mut kept: Vec<Vec<u8>> = Vec::new();
    let mut i: usize = 0;
    assert(all.skip(0) =~= all);
    assert(byte_views(kept@) + essential(all) =~= essential(all));
    while i < list.len()
        invariant
            i <= list@.len(),
            all == byte_views(list@),
            byte_views(kept@) + essential(all.skip(i as int)) == essential(all),
        decreases list.len() - i,
    {
        let ghost rest = all.skip(i as int);
        let ghost before = byte_views(kept@);
        assert(rest[0] == list@[i as int]@);
        assert(rest.skip(1) =~= all.skip(i + 1));
        if is_essential(&decode_lossy(&list[i])) {
            let comment = copy_range(&list[i], 0, list[i].len());
            assert(comment@ =~= rest[0]);
            kept.push(comment);
            assert(byte_views(kept@) =~= before.push(rest[0]));
            assert(byte_views(kept@) + essential(all.skip(i + 1)) =~= before + essential(rest));
        }
        i += 1;
    }
    assert(essential(all.skip(list@.len() as int)) =~= Seq::<Seq<u8>>::empty());
    assert(byte_views(kept@) =~= essential(all));
    Ok(Some(rewrite_comments(data, header, &kept)))
}

/// The keys of the entries that have one.
pub open spec fn entry_keys(entries: Seq<Seq<char>>) -> Seq<Seq<char>>
    decreases entries.len(),
{
    if entries.len() == 0 {
        Seq::empty()
    } else if entries.last().contains('=') {
        entry_keys(entries.drop_last()).push(key_of(entries.last()))
    } else {
        entry_keys(entries.drop_last())
    }
}

/// Whether the key is one of `keys` in any case.
pub open spec fn has_key(keys: Seq<Seq<char>>, key: Seq<char>) -> bool {
    exists|i: int| 0 <= i < keys.len() && same_ignoring_case(#[trigger] keys[i], key)
}

/// The comments whose key is none of `keys`, in their order.
pub open spec fn others(list: Seq<Seq<u8>>, keys: Seq<Seq<char>>) -> Seq<Seq<u8>>
    decreases list.len(),
{
    if list.len() == 0 {
        Seq::empty()
    } else if has_key(keys, key_of(lossy_text(list[0]))) {
        others(list.skip(1), keys)
    } else {
        seq![list[0]] + others(list.skip(1), keys)
    }
}

/// The entries as they are stored.
pub open spec fn encoded(entries: Seq<Seq<char>>) -> Seq<Seq<u8>> {
    entries.map_values(|e: Seq<char>| encode_utf8(e))
}

/// The comments after the entries were merged in: those of another key, then
/// the entries.
pub open spec fn merged(list: Seq<Seq<u8>>, entries: Seq<Seq<char>>) -> Seq<Seq<u8>> {
    others(list, entry_keys(entries)) + encoded(entries)
}

/// The data after the entries were merged in.
pub open spec fn with_entries(data: Seq<u8>, entries: Seq<Seq<char>>) -> Result<Seq<u8>, FlacError> {
    if !is_flac(data) {
        Err(FlacError::NotFlac)
    } else {
        match comment_block(data, 4) {
            Err(e) => Err(e),
            Ok(Some(h)) => Ok(
                with_comments(data, h, merged(comments_of(payload_at(data, h)), entries)),
            ),
            Ok(None) => match last_block(data, 4) {
                Err(e) => Err(e),
                Ok(h) => Ok(
                    with_block(data, h, 4, comment_payload(Seq::empty(), encoded(entries))),
                ),
            },
        }
    }
}

fn keys_of(entries: &[String]) -> (keys: Vec<Vec<char>>)
    ensures
        keys@.map_values(|k: Vec<char>| k@) == entry_keys(texts(entries@)),
{
    let ghost all = texts(entries@);
    let mut keys: Vec<Vec<char>> = Vec::new();
    let mut i: usize = 0;
    assert(keys@.map_values(|k: Vec<char>| k@) =~= entry_keys(all.take(0)));
    while i < entries.len()
        invariant
            i <= entries@.len(),
            all == texts(entries@),
            keys@.map_values(|k: Vec<char>| k@) == entry_keys(all.take(i as int)),
        decreases entries.len() - i,
    {
        let chars = chars_of(&entries[i]);
        let ghost before = keys@;
        assert(all[i as int] == chars@);
        assert(all.take(i + 1).drop_last() =~= all.take(i as int));
        let k = find_char(&chars, '=');
        proof {
            lemma_first_index_props(chars@, '=');
        }
        if k < chars.len() {
            let mut key: Vec<char> = Vec::new();
            append_chars(&mut key, slice_subrange(&chars, 0, k));
            assert(key@ =~= key_of(chars@));
            assert(chars@[k as int] == '=');
            keys.push(key);
            assert(keys@.map_values(|k: Vec<char>| k@) =~= before.map_values(
                |k: Vec<char>| k@,
            ).push(key@));
        } else {
            assert(!chars@.contains('='));
        }
        i += 1;
    }
    assert(all.take(entries@.len() as int) =~= all);
    keys
}

fn is_among(keys: &Vec<Vec<char>>, key: &[char]) -> (yes: bool)
    ensures
        yes == has_key(keys@.map_values(|k: Vec<char>| k@), key@),
{
    let ghost views = keys@.map_values(|k: Vec<char>| k@);
    let mut i: usize = 0;
    while i < keys.len()
        invariant
            i <= keys@.len(),
            views == keys@.map_values(|k: Vec<char>| k@),
            forall|j: int| 0 <= j < i ==> !same_ignoring_case(#[trigger] views[j], key@),
        decreases keys.len() - i,
    {
        assert(views[i as int] == keys@[i as int]@);
        if eq_ignoring_case(&keys[i], key) {
            return true;
        }
        i += 1;
    }
    false
}

/// Whether a comment with this text makes way for the entries.
pub fn is_replaced_by(text: &str, entries: &[String]) -> (yes: bool)
    ensures
        yes == has_key(entry_keys(texts(entries@)), key_of(text@)),
{
    let keys = keys_of(entries);
    let chars = chars_of(text);
    is_among(&keys, key_slice(&chars))
}

fn push_entries(list: &mut Vec<Vec<u8>>, entries: &[String])
    ensures
        byte_views(final(list)@) == byte_views(old(list)@) + encoded(texts(entries@)),
{
    let ghost all = encoded(texts(entries@));
    let ghost first = byte_views(list@);
    let mut i: usize = 0;
    assert(byte_views(list@) =~= first + all.take(0));
    while i < entries.len()
        invariant
            i <= entries@.len(),
            all == encoded(texts(entries@)),
            byte_views(list@) == first + all.take(i as int),
        decreases entries.len() - i,
    {
        let bytes = vstd::slice::slice_to_vec(entries[i].as_str().as_bytes());
        let ghost before = byte_views(list@);
        assert(bytes@ == all[i as int]);
        list.push(bytes);
        i += 1;
        assert(byte_views(list@) =~= before.push(bytes@));
        assert(byte_views(list@) =~= first + all.take(i as int));
    }
    assert(all.take(entries@.len() as int) =~= all);
}

proof fn lemma_no_comments_is_whole(data: Seq<u8>, pos: int)
    requires
        0 <= pos,
        comment_block(data, pos) == Ok::<Option<int>, FlacError>(None),
    ensures
        last_block(data, pos) is Ok,
    decreases data.len() - pos,
{
    if data[pos] < 128 {
        lemma_no_comments_is_whole(data, block_end(data, pos));
    }
}

/// Merges the entries into the first comment block, or adds a comment block
/// where the stream has none. Comments with the key of an entry make way, and
/// the entries come last.
///
/// A comment block that declares more comments than it holds is not accepted.
pub fn upsert_flac_comments(data: &mut Vec<u8>, entries: &[String]) -> (done: Result<(), FlacError>)
    requires
        comments_complete(old(data)@),
    ensures
        match done {
            Ok(()) => with_entries(old(data)@, texts(entries@)) == Ok::<Seq<u8>, FlacError>(
                final(data)@,
            ),
            Err(e) => final(data)@ == old(data)@ && with_entries(old(data)@, texts(entries@))
                == Err::<Seq<u8>, FlacError>(e),
        },
        done is Err <==> !is_flac(old(data)@) || comment_block(old(data)@, 4) is Err,
{
    if !opens_with_flac(data) {
        return Err(FlacError::NotFlac);
    }
    let header = match find_comments(data) {
        Err(e) => return Err(e),
        Ok(None) => {
            proof {
                lemma_no_comments_is_whole(data@, 4);
            }
            let mut list: Vec<Vec<u8>> = Vec::new();
            let ghost none = byte_views(list@);
            push_entries(&mut list, entries);
            assert(byte_views(list@) =~= encoded(texts(entries@)));
            let mut payload: Vec<u8> = Vec::new();
            push_le32(&mut payload, 0);
            push_le32(&mut payload, list.len());
            push_comments(&mut payload, &list);
            assert(payload@ =~= comment_payload(Seq::empty(), byte_views(list@)));
            return insert_flac_block(data, 4, &payload);
        },
        Ok(Some(h)) => h,
    };
    let list = stored_comments(data, header);
    let ghost all = byte_views(list@);
    let ghost keys = entry_keys(texts(entries@));
    let mut kept: Vec<Vec<u8>> = Vec::new();
    let mut i: usize = 0;
    assert(all.skip(0) =~= all);
    assert(byte_views(kept@) + others(all, keys) =~= others(all, keys));
    while i < list.len()
        invariant
            i <= list@.len(),
            all == byte_views(list@),
            keys == entry_keys(texts(entries@)),
            byte_views(kept@) + others(all.skip(i as int), keys) == others(all, keys),
        decreases list.len() - i,
    {
        let ghost rest = all.skip(i as int);
        let ghost before = byte_views(kept@);
        assert(rest[0] == list@[i as int]@);
        assert(rest.skip(1) =~= all.skip(i + 1));
        if !is_replaced_by(&decode_lossy(&list[i]), entries) {
            let comment = copy_range(&list[i], 0, list[i].len());
            assert(comment@ =~= rest[0]);
            kept.push(comment);
            assert(byte_views(kept@) =~= before.push(rest[0]));
            assert(byte_views(kept@) + others(all.skip(i + 1), keys) =~= before + others(
                rest,
                keys,
            ));
        }
        i += 1;
    }
    assert(others(all.skip(list@.len() as int), keys) =~= Seq::<Seq<u8>>::empty());
    assert(byte_views(kept@) =~= others(all, keys));
    push_entries(&mut kept, entries);
    *data = rewrite_comments(data, header, &kept);
    Ok(())
}

/// The comment that holds the lyrics.
pub open spec fn lyrics_entry(text: Seq<char>) -> Seq<char> {
    "LYRICS="@ + text
}

fn make_entry(key: &str, value: &str) -> (entry: String)
    ensures
        entry@ == key@ + value@,
{
    let mut chars = chars_of(key);
    append_str(&mut chars, value);
    string_of(&chars)
}

/// Stores the lyrics in a `LYRICS` comment. Empty lyrics change nothing.
pub fn append_flac_lyrics(data: &mut Vec<u8>, lyrics: &[u8]) -> (done: Result<(), FlacError>)
    requires
        lyrics@.len() > 0 ==> comments_complete(old(data)@),
    ensures
        if lyrics@.len() == 0 {
            done == Ok::<(), FlacError>(()) && final(data)@ == old(data)@
        } else {
            match (done, with_entries(old(data)@, seq![lyrics_entry(lossy_text(lyrics@))])) {
                (Ok(_), Ok(new)) => final(data)@ == new,
                (Err(e), Err(f)) => e == f && final(data)@ == old(data)@,
                _ => false,
            }
        },
{
    if lyrics.len() == 0 {
        return Ok(());
    }
    let mut entries: Vec<String> = Vec::new();
    entries.push(make_entry("LYRICS=", &decode_lossy(lyrics)));
    assert(texts(entries@) =~= seq![lyrics_entry(lossy_text(lyrics@))]);
    upsert_flac_comments(data, &entries)
}

/// The comments that hold title, artist and album.
pub open spec fn metadata_entries(
    title: Seq<char>,
    artist: Seq<char>,
    album: Seq<char>,
) -> Seq<Seq<char>> {
    seq!["TITLE="@ + title, "ARTIST="@ + artist, "ALBUM="@ + album]
}

/// Stores title, artist and album in comments.
pub fn append_flac_metadata(data: &mut Vec<u8>, title: &str, artist: &str, album: &str) -> (done:
    Result<(), FlacError>)
    requires
        comments_complete(old(data)@),
    ensures
        match (done, with_entries(old(data)@, metadata_entries(title@, artist@, album@))) {
            (Ok(_), Ok(new)) => final(data)@ == new,
            (Err(e), Err(f)) => e == f && final(data)@ == old(data)@,
            _ => false,
        },
{
    let mut entries: Vec<String> = Vec::new();
    entries.push(make_entry("TITLE=", title));
    entries.push(make_entry("ARTIST=", artist));
    entries.push(make_entry("ALBUM=", album));
    assert(texts(entries@) =~= metadata_entries(title@, artist@, album@));
    upsert_flac_comments(data, &entries)
}

/// The payload of a picture block: front cover, MIME type, empty description,
/// no dimensions, image.
pub open spec fn picture_payload(cover: Seq<u8>) -> Seq<u8> {
    let mime = encode_utf8(cover_mime(cover));
    be32(3) + be32(mime.len() as int) + mime + be32(0) + be32(0) + be32(0) + be32(0) + be32(0)
        + be32(cover.len() as int) + cover
}

/// Stores the cover in a picture block of its own.
pub fn append_flac_cover(data: &mut Vec<u8>, cover: &[u8]) -> (done: Result<(), FlacError>)
    ensures
        match done {
            Ok(()) => is_flac(old(data)@) && match last_block(old(data)@, 4) {
                Ok(h) => final(data)@ == with_block(old(data)@, h, 6, picture_payload(cover@)),
                Err(_) => false,
            },
            Err(e) => final(data)@ == old(data)@ && if is_flac(old(data)@) {
                last_block(old(data)@, 4) == Err::<int, FlacError>(e)
            } else {
                e == FlacError::NotFlac
            },
        },
{
    let mime = mime_of(cover).as_bytes();
    let mut payload: Vec<u8> = Vec::new();
    push_be32(&mut payload, 3);
    push_be32(&mut payload, mime.len());
    append(&mut payload, mime);
    push_be32(&mut payload, 0);
    push_be32(&mut payload, 0);
    push_be32(&mut payload, 0);
    push_be32(&mut payload, 0);
    push_be32(&mut payload, 0);
    push_be32(&mut payload, cover.len());
    append(&mut payload, cover);
    assert(payload@ =~= picture_payload(cover@));
    insert_flac_block(data, 6, &payload)
}

} // verus!
