//! Decryption: AES for keys and metadata, a repeating keystream for the audio.

use aes::Aes128;
use base64::{engine::general_purpose::STANDARD, Engine as _};
use cipher::{generic_array::GenericArray, BlockDecrypt, KeyInit};
use vstd::prelude::*;
use vstd::slice::slice_subrange;
use crate::bytes::{append, copy_range};

verus! {

/// The key of the key block.
pub const CORE_KEY: [u8; 16] = [
    0x68, 0x7a, 0x48, 0x52, 0x41, 0x6d, 0x73, 0x6f, 0x35, 0x6b, 0x49, 0x6e, 0x62, 0x61, 0x78, 0x57,
];

/// The key of the metadata block.
pub const MODIFY_KEY: [u8; 16] = [
    0x23, 0x31, 0x34, 0x6c, 0x6a, 0x6b, 0x5f, 0x21, 0x5c, 0x5d, 0x26, 0x30, 0x55, 0x3c, 0x27, 0x28,
];

/// What `aes::Aes128` decrypts one block to.
pub uninterp spec fn aes128_block(key: Seq<u8>, block: Seq<u8>) -> Seq<u8>;

/// Calls `aes::Aes128::new` and `cipher::BlockDecrypt::decrypt_block`. The
/// plain block has sixteen bytes and is a function of key and block.
#[verifier::external_body]
fn decrypt_block(key: &[u8; 16], block: &[u8]) -> (plain: Vec<u8>)
    requires
        block@.len() == 16,
    ensures
        plain@ == aes128_block(key@, block@),
        plain@.len() == 16,
{
    let mut plain = *GenericArray::from_slice(block);
    Aes128::new(GenericArray::from_slice(key)).decrypt_block(&mut plain);
    plain.to_vec()
}

/// Every whole block of the data decrypted on its own. A rest of fewer than
/// sixteen bytes stays as it is.
pub open spec fn ecb(key: Seq<u8>, data: Seq<u8>) -> Seq<u8>
    decreases data.len(),
{
    if data.len() < 16 {
        data
    } else {
        aes128_block(key, data.take(16)) + ecb(key, data.skip(16))
    }
}

/// Whether the data ends with `n` bytes of value `n`, `n` from 1 to 16.
pub open spec fn is_padded(data: Seq<u8>) -> bool {
    data.len() > 0 && 1 <= data.last() <= 16 && data.last() <= data.len() && forall|i: int|
        data.len() - data.last() <= i < data.len() ==> #[trigger] data[i] == data.last()
}

/// The data without its padding. Data that is not padded stays as it is.
pub open spec fn unpadded(data: Seq<u8>) -> Seq<u8> {
    if is_padded(data) {
        data.take(data.len() - data.last())
    } else {
        data
    }
}

/// Removes the padding from decrypted data.
pub fn strip_padding(data: Vec<u8>) -> (out: Vec<u8>)
    ensures
        out@ == unpadded(data@),
{
    let mut out = data;
    let len = out.len();
    if len == 0 {
        return out;
    }
    let pad = out[len - 1];
    if pad < 1 || pad > 16 || pad as usize > len {
        return out;
    }
    let from: usize = len - pad as usize;
    let mut i: usize = from;
    while i < len
        invariant
            from <= i <= len == out@.len(),
            from == len - pad,
            pad == out@.last(),
            forall|j: int| from <= j < i ==> #[trigger] out@[j] == pad,
            out@ == data@,
        decreases len - i,
    {
        if out[i] != pad {
            assert(!is_padded(data@));
            return out;
        }
        i += 1;
    }
    assert(is_padded(data@));
    out.truncate(from);
    out
}

/// Decrypts the data block by block and removes the padding.
pub fn aes_ecb_decrypt(key: &[u8; 16], data: &[u8]) -> (out: Vec<u8>)
    ensures
        out@ == unpadded(ecb(key@, data@)),
{
    let mut out: Vec<u8> = Vec::new();
    let mut pos: usize = 0;
    assert(data@.skip(0) =~= data@);
    assert(out@ + ecb(key@, data@) =~= ecb(key@, data@));
    while data.len() - pos >= 16
        invariant
            pos <= data@.len(),
            out@ + ecb(key@, data@.skip(pos as int)) == ecb(key@, data@),
        decreases data.len() - pos,
    {
        let ghost rest = data@.skip(pos as int);
        let ghost before = out@;
        let block = slice_subrange(data, pos, pos + 16);
        assert(block@ =~= rest.take(16));
        assert(rest.skip(16) =~= data@.skip(pos + 16));
        let plain = decrypt_block(key, block);
        append(&mut out, &plain);
        pos += 16;
        assert(out@ + ecb(key@, data@.skip(pos as int)) =~= before + ecb(key@, rest));
    }
    let rest = slice_subrange(data, pos, data.len());
    assert(rest@ =~= data@.skip(pos as int));
    append(&mut out, rest);
    strip_padding(out)
}

/// What the base64 engine `STANDARD` decodes the data to, if it is valid.
pub uninterp spec fn base64_decoded(data: Seq<u8>) -> Option<Seq<u8>>;

/// Calls `base64::Engine::decode` on the engine `STANDARD`. Whether the data is
/// valid, and what it decodes to then, is a function of the data.
#[verifier::external_body]
fn decode_base64(data: &[u8]) -> (decoded: Option<Vec<u8>>)
    ensures
        match decoded {
            Some(bytes) => base64_decoded(data@) == Some(bytes@),
            None => base64_decoded(data@) is None,
        },
{
    STANDARD.decode(data).ok()
}

/// The decrypted metadata. Data that is not valid base64 is decrypted as it is.
pub open spec fn plain_metadata(data: Seq<u8>) -> Seq<u8> {
    unpadded(
        ecb(
            MODIFY_KEY@,
            match base64_decoded(data) {
                Some(bytes) => bytes,
                None => data,
            },
        ),
    )
}

/// Decodes and decrypts the metadata.
pub fn decode_metadata(data: &[u8]) -> (out: Vec<u8>)
    ensures
        out@ == plain_metadata(data@),
{
    match decode_base64(data) {
        Some(bytes) => aes_ecb_decrypt(&MODIFY_KEY, &bytes),
        None => aes_ecb_decrypt(&MODIFY_KEY, data),
    }
}

/// State of the key schedule after `n` swaps: the box, the last target index
/// and the position in the key.
pub open spec fn schedule(key: Seq<u8>, n: nat) -> (Seq<u8>, u8, int)
    decreases n,
{
    if n == 0 {
        (Seq::new(256, |i: int| i as u8), 0u8, 0int)
    } else {
        let (b, last, off) = schedule(key, (n - 1) as nat);
        let i = n - 1;
        let c = (b[i] + last + key[off]) % 256;
        (b.update(i, b[c]).update(c, b[i]), c as u8, (off + 1) % (key.len() as int))
    }
}

/// The key box that a key expands to.
pub open spec fn keybox_of(key: Seq<u8>) -> Seq<u8> {
    schedule(key, 256).0
}

/// Expands a key into its key box.
pub fn build_keybox(key: &[u8]) -> (b: [u8; 256])
    requires
        key@.len() > 0,
    ensures
        b@ == keybox_of(key@),
{
    let mut b = [0u8; 256];
    let mut i: usize = 0;
    while i < 256
        invariant
            i <= 256,
            forall|j: int| 0 <= j < i ==> b@[j] == j,
        decreases 256 - i,
    {
        b[i] = i as u8;
        i += 1;
    }
    let mut last: u8 = 0;
    let mut off: usize = 0;
    let mut i: usize = 0;
    assert(b@ =~= schedule(key@, 0).0);
    while i < 256
        invariant
            i <= 256,
            off < key@.len(),
            schedule(key@, i as nat) == (b@, last, off as int),
        decreases 256 - i,
    {
        let swap = b[i];
        let c = swap.wrapping_add(last).wrapping_add(key[off]);
        off = (off + 1) % key.len();
        b[i] = b[c as usize];
        b[c as usize] = swap;
        last = c;
        i += 1;
    }
    b
}

/// The keystream of a key box: 256 bytes that repeat.
pub open spec fn stream_lut(keybox: Seq<u8>) -> Seq<u8> {
    Seq::new(
        256,
        |j: int| keybox[(keybox[j] + keybox[(keybox[j] + j) % 256]) % 256],
    )
}

/// Computes the keystream of a key box.
pub fn build_stream_lut(keybox: &[u8; 256]) -> (lut: [u8; 256])
    ensures
        lut@ == stream_lut(keybox@),
{
    let mut lut = [0u8; 256];
    let mut j: usize = 0;
    while j < 256
        invariant
            j <= 256,
            forall|i: int| 0 <= i < j ==> lut@[i] == stream_lut(keybox@)[i],
        decreases 256 - j,
    {
        let inner = keybox[j].wrapping_add(j as u8);
        let idx = keybox[j].wrapping_add(keybox[inner as usize]);
        lut[j] = keybox[idx as usize];
        j += 1;
    }
    assert(lut@ =~= stream_lut(keybox@));
    lut
}

/// The data combined with the keystream, where its first byte is at `offset`
/// of the audio.
pub open spec fn streamed(lut: Seq<u8>, offset: int, data: Seq<u8>) -> Seq<u8> {
    Seq::new(data.len(), |i: int| data[i] ^ lut[(offset + i + 1) % 256])
}

/// Decrypts a buffer in place that starts at `offset` of the audio.
pub fn stream_decrypt_in_place(lut: &[u8; 256], offset: usize, data: &mut [u8])
    requires
        offset + old(data)@.len() <= usize::MAX,
    ensures
        final(data)@ == streamed(lut@, offset as int, old(data)@),
{
    let ghost all = data@;
    let len = data.len();
    let mut i: usize = 0;
    while i < len
        invariant
            i <= len == data@.len(),
            all == old(data)@,
            all.len() == len,
            offset + len <= usize::MAX,
            forall|j: int|
                0 <= j < len ==> #[trigger] data@[j] == if j < i {
                    streamed(lut@, offset as int, all)[j]
                } else {
                    all[j]
                },
        decreases len - i,
    {
        let k = lut[(offset + i + 1) % 256];
        let b = data[i];
        data[i] = b ^ k;
        i += 1;
    }
    assert(data@ =~= streamed(lut@, offset as int, all));
}

/// Decrypts audio from its start.
pub fn stream_decrypt(keybox: &[u8; 256], data: &[u8]) -> (out: Vec<u8>)
    ensures
        out@ == streamed(stream_lut(keybox@), 0, data@),
{
    let lut = build_stream_lut(keybox);
    let mut out = copy_range(data, 0, data.len());
    assert(out@ =~= data@);
    stream_decrypt_in_place(&lut, 0, out.as_mut_slice());
    out
}

/// A box that holds every byte once.
pub open spec fn is_permutation(b: Seq<u8>) -> bool {
    b.len() == 256 && forall|i: int, j: int|
        0 <= i < j < 256 ==> #[trigger] b[i] != #[trigger] b[j]
}

proof fn lemma_swap_keeps(b: Seq<u8>, i: int, c: int)
    requires
        is_permutation(b),
        0 <= i < 256,
        0 <= c < 256,
    ensures
        is_permutation(b.update(i, b[c]).update(c, b[i])),
{
}

proof fn lemma_schedule_permutes(key: Seq<u8>, n: nat)
    requires
        key.len() > 0,
        n <= 256,
    ensures
        is_permutation(schedule(key, n).0),
        0 <= schedule(key, n).2 < key.len(),
    decreases n,
{
    if n > 0 {
        lemma_schedule_permutes(key, (n - 1) as nat);
        let (b, last, off) = schedule(key, (n - 1) as nat);
        let i = n - 1;
        lemma_swap_keeps(b, i, (b[i] + last + key[off]) % 256);
    }
}

/// A key box holds every byte exactly once, whatever the key.
pub proof fn law_keybox_is_a_permutation(key: Seq<u8>)
    requires
        key.len() > 0,
    ensures
        is_permutation(keybox_of(key)),
{
    lemma_schedule_permutes(key, 256);
}

/// Applying the keystream twice at the same offset gives the data back.
pub proof fn law_stream_undoes_itself(lut: Seq<u8>, offset: int, data: Seq<u8>)
    ensures
        streamed(lut, offset, streamed(lut, offset, data)) == data,
{
    assert forall|i: int| 0 <= i < data.len() implies (data[i] ^ lut[(offset + i + 1) % 256])
        ^ lut[(offset + i + 1) % 256] == data[i] by {
        let a = data[i];
        let k = lut[(offset + i + 1) % 256];
        assert((a ^ k) ^ k == a) by (bit_vector);
    }
    assert(streamed(lut, offset, streamed(lut, offset, data)) =~= data);
}

/// Audio may be decrypted in pieces: the pieces put together are what decrypting
/// it at once gives.
pub proof fn law_stream_in_pieces(lut: Seq<u8>, offset: int, first: Seq<u8>, second: Seq<u8>)
    ensures
        streamed(lut, offset, first + second) == streamed(lut, offset, first) + streamed(
            lut,
            offset + first.len(),
            second,
        ),
{
    assert(streamed(lut, offset, first + second) =~= streamed(lut, offset, first) + streamed(
        lut,
        offset + first.len(),
        second,
    ));
}

/// The keystream repeats every 256 bytes.
pub proof fn law_stream_repeats(lut: Seq<u8>, offset: int, data: Seq<u8>)
    ensures
        streamed(lut, offset + 256, data) == streamed(lut, offset, data),
{
    assert(streamed(lut, offset + 256, data) =~= streamed(lut, offset, data));
}

} // verus!
