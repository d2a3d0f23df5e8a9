//! The container: key block, metadata, cover and audio.

use vstd::prelude::*;
use vstd::slice::slice_subrange;
use crate::bytes::{begins_with, le32_at, read_le32, starts_with};
use crate::json::{json_of, parse_json, trees, Json, Tree};
use crate::ncm_decrypt::{
    aes_ecb_decrypt, build_keybox, decode_metadata, ecb, keybox_of, plain_metadata, unpadded,
    CORE_KEY,
};
use crate::text::{char_views, chars_of, decode_lossy, join, joined, lossy_text, string_of};

verus! {

/// What a file says about its song.
#[derive(Clone, Debug)]
pub struct NcmMetadata {
    pub title: String,
    pub artist: String,
    pub album: String,
    pub format: String,
    pub picture_type: u8,
}

/// What a file says about its song, as texts.
pub struct SongInfo {
    pub title: Seq<char>,
    pub artist: Seq<char>,
    pub album: Seq<char>,
    pub format: Seq<char>,
    pub picture_type: u8,
}

impl View for NcmMetadata {
    type V = SongInfo;

    open spec fn view(&self) -> SongInfo {
        SongInfo {
            title: self.title@,
            artist: self.artist@,
            album: self.album@,
            format: self.format@,
            picture_type: self.picture_type,
        }
    }
}

impl Default for NcmMetadata {
    fn default() -> (m: Self)
        ensures
            m@ == (SongInfo {
                title: Seq::empty(),
                artist: Seq::empty(),
                album: Seq::empty(),
                format: Seq::empty(),
                picture_type: 0,
            }),
    {
        NcmMetadata {
            title: String::new(),
            artist: String::new(),
            album: String::new(),
            format: String::new(),
            picture_type: 0,
        }
    }
}

/// What is assumed of a song that says nothing about itself.
pub open spec fn unknown_song() -> SongInfo {
    SongInfo {
        title: Seq::empty(),
        artist: Seq::empty(),
        album: Seq::empty(),
        format: "mp3"@,
        picture_type: 3,
    }
}

/// The names in a list of artists. An artist is a list whose first item is the
/// name.
pub open spec fn artist_names(artists: Seq<Tree>) -> Seq<Seq<char>>
    decreases artists.len(),
{
    if artists.len() == 0 {
        Seq::empty()
    } else {
        let before = artist_names(artists.drop_last());
        match artists.last() {
            Tree::List(items) => if items.len() > 0 && items[0] is Text {
                before.push(items[0]->Text_0)
            } else {
                before
            },
            _ => before,
        }
    }
}

/// The text, or a default where it is missing.
pub open spec fn text_or(text: Option<Seq<char>>, default: Seq<char>) -> Seq<char> {
    match text {
        Some(t) => t,
        None => default,
    }
}

/// The song described by a JSON document, if there is one.
pub open spec fn song_of(doc: Option<Tree>) -> SongInfo {
    match doc {
        None => unknown_song(),
        Some(tree) => SongInfo {
            title: text_or(tree.text_field("musicName"@), Seq::empty()),
            artist: match tree.list_field("artist"@) {
                Some(artists) => joined(artist_names(artists), "/"@),
                None => Seq::empty(),
            },
            album: text_or(tree.text_field("album"@), Seq::empty()),
            format: text_or(tree.text_field("format"@), "mp3"@),
            picture_type: 3,
        },
    }
}

fn or_default(text: Option<&str>, default: &str) -> (s: String)
    ensures
        match text {
            Some(t) => s@ == t@,
            None => s@ == default@,
        },
{
    match text {
        Some(t) => t.to_string(),
        None => default.to_string(),
    }
}

fn or_empty(text: Option<&str>) -> (s: String)
    ensures
        match text {
            Some(t) => s@ == t@,
            None => s@ == Seq::<char>::empty(),
        },
{
    match text {
        Some(t) => t.to_string(),
        None => String::new(),
    }
}

fn names_of(artists: &Vec<Json>) -> (names: Vec<Vec<char>>)
    ensures
        char_views(names@) == artist_names(trees(artists@)),
{
    let ghost all = trees(artists@);
    let mut names: Vec<Vec<char>> = Vec::new();
    let mut i: usize = 0;
    assert(char_views(names@) =~= artist_names(all.take(0)));
    while i < artists.len()
        invariant
            i <= artists@.len(),
            all == trees(artists@),
            char_views(names@) == artist_names(all.take(i as int)),
        decreases artists.len() - i,
    {
        let ghost before = char_views(names@);
        assert(all.take(i + 1).drop_last() =~= all.take(i as int));
        assert(all.take(i + 1).last() == artists@[i as int]@);
        if let Some(items) = artists[i].as_array() {
            if items.len() > 0 {
                assert(trees(items@)[0] == items@[0]@);
                if let Some(name) = items[0].as_str() {
                    let chars = chars_of(name);
                    names.push(chars);
                    assert(char_views(names@) =~= before.push(chars@));
                }
            }
        }
        i += 1;
    }
    assert(all.take(artists@.len() as int) =~= all);
    names
}

/// The song described by a JSON document, if there is one.
pub fn metadata_from(doc: &Option<Json>) -> (m: NcmMetadata)
    ensures
        m@ == song_of(
            match *doc {
                Some(json) => Some(json@),
                None => None,
            },
        ),
{
    match doc {
        None => NcmMetadata {
            title: String::new(),
            artist: String::new(),
            album: String::new(),
            format: "mp3".to_string(),
            picture_type: 3,
        },
        Some(json) => {
            let artist = match json.get_array("artist") {
                Some(artists) => {
                    let names = names_of(artists);
                    string_of(&join(&names, &chars_of("/")))
                },
                None => String::new(),
            };
            NcmMetadata {
                title: or_empty(json.get_str("musicName")),
                artist,
                album: or_empty(json.get_str("album")),
                format: or_default(json.get_str("format"), "mp3"),
                picture_type: 3,
            }
        },
    }
}

/// The text of the decrypted metadata: without the six bytes in front, if there
/// are six.
pub open spec fn metadata_text(plain: Seq<u8>) -> Seq<char> {
    lossy_text(
        if plain.len() >= 6 {
            plain.skip(6)
        } else {
            plain
        },
    )
}

/// The song that a metadata block describes.
pub open spec fn song_in(raw: Seq<u8>) -> SongInfo {
    song_of(json_of(metadata_text(plain_metadata(raw))))
}

/// Reads the metadata block.
pub fn parse_metadata(raw: &[u8]) -> (m: NcmMetadata)
    ensures
        m@ == song_in(raw@),
{
    let plain = decode_metadata(raw);
    let text = if plain.len() >= 6 {
        let rest = slice_subrange(&plain, 6, plain.len());
        assert(rest@ =~= plain@.skip(6));
        decode_lossy(rest)
    } else {
        decode_lossy(&plain)
    };
    metadata_from(&parse_json(&text))
}

/// Why a file cannot be decoded.
#[derive(Clone, Copy, Debug, PartialEq, Eq, Structural)]
pub enum HeaderError {
    /// The data ends too early: the next field is only complete with this many
    /// bytes.
    UnexpectedEof { needed: u64 },
    /// The file does not open with a known marker.
    InvalidHeader,
    /// The key block is empty or longer than the file.
    InvalidKeyBlock,
    /// The decrypted key is too short.
    InvalidKey,
}

impl HeaderError {
    /// The text shown for the error.
    pub open spec fn text(self) -> Seq<char> {
        match self {
            HeaderError::UnexpectedEof { .. } => "failed to fill whole buffer"@,
            HeaderError::InvalidHeader => "invalid NCM header"@,
            HeaderError::InvalidKeyBlock => "invalid key block"@,
            HeaderError::InvalidKey => "invalid key"@,
        }
    }

    /// The text shown for the error.
    pub fn message(&self) -> (m: &'static str)
        ensures
            m@ == self.text(),
    {
        match self {
            HeaderError::UnexpectedEof { .. } => "failed to fill whole buffer",
            HeaderError::InvalidHeader => "invalid NCM header",
            HeaderError::InvalidKeyBlock => "invalid key block",
            HeaderError::InvalidKey => "invalid key",
        }
    }
}

/// Whether the data opens with one of the two markers, `CTENFDAM` and
/// `NETCMADF`.
pub open spec fn has_marker(data: Seq<u8>) -> bool {
    ||| begins_with(data, seq![0x43u8, 0x54, 0x45, 0x4e, 0x46, 0x44, 0x41, 0x4d])
    ||| begins_with(data, seq![0x4eu8, 0x45, 0x54, 0x43, 0x4d, 0x41, 0x44, 0x46])
}

/// The bytes with each one combined with `mask`.
pub open spec fn unmasked(s: Seq<u8>, mask: u8) -> Seq<u8> {
    s.map_values(|b: u8| b ^ mask)
}

fn unmask(s: &[u8], mask: u8) -> (out: Vec<u8>)
    ensures
        out@ == unmasked(s@, mask),
{
    let mut out: Vec<u8> = Vec::new();
    let mut i: usize = 0;
    while i < s.len()
        invariant
            i <= s@.len(),
            out@ == unmasked(s@.take(i as int), mask),
        decreases s.len() - i,
    {
        out.push(s[i] ^ mask);
        i += 1;
        assert(out@ =~= unmasked(s@.take(i as int), mask));
    }
    assert(s@.take(s@.len() as int) =~= s@);
    out
}

/// The data ends before `needed` bytes.
pub open spec fn eof<T>(needed: int) -> Result<T, HeaderError> {
    Err(HeaderError::UnexpectedEof { needed: needed as u64 })
}

/// The encrypted key: ten bytes with the marker, a length, and that many
/// masked bytes. The length is neither zero nor more than the size of the file.
pub open spec fn key_block(data: Seq<u8>, total: u64) -> Result<Seq<u8>, HeaderError> {
    if data.len() < 10 {
        eof(10)
    } else if !has_marker(data) {
        Err(HeaderError::InvalidHeader)
    } else if data.len() < 14 {
        eof(14)
    } else if le32_at(data, 10) == 0 || le32_at(data, 10) > total {
        Err(HeaderError::InvalidKeyBlock)
    } else if data.len() < 14 + le32_at(data, 10) {
        eof(14 + le32_at(data, 10))
    } else {
        Ok(unmasked(data.subrange(14, 14 + le32_at(data, 10)), 0x64))
    }
}

/// Reads the encrypted key.
pub fn read_key_block(data: &[u8], total: u64) -> (key: Result<Vec<u8>, HeaderError>)
    ensures
        match key {
            Ok(k) => key_block(data@, total) == Ok::<Seq<u8>, HeaderError>(k@) && 14 + k@.len()
                <= data@.len() && k@.len() > 0,
            Err(e) => key_block(data@, total) == Err::<Seq<u8>, HeaderError>(e),
        },
{
    if data.len() < 10 {
        return Err(HeaderError::UnexpectedEof { needed: 10 });
    }
    let one: [u8; 8] = [0x43, 0x54, 0x45, 0x4e, 0x46, 0x44, 0x41, 0x4d];
    let two: [u8; 8] = [0x4e, 0x45, 0x54, 0x43, 0x4d, 0x41, 0x44, 0x46];
    assert(one@ =~= seq![0x43u8, 0x54, 0x45, 0x4e, 0x46, 0x44, 0x41, 0x4d]);
    assert(two@ =~= seq![0x4eu8, 0x45, 0x54, 0x43, 0x4d, 0x41, 0x44, 0x46]);
    if !starts_with(data, &one) && !starts_with(data, &two) {
        return Err(HeaderError::InvalidHeader);
    }
    if data.len() < 14 {
        return Err(HeaderError::UnexpectedEof { needed: 14 });
    }
    let len = read_le32(data, 10);
    if len == 0 || len as u64 > total {
        return Err(HeaderError::InvalidKeyBlock);
    }
    if data.len() - 14 < len {
        return Err(HeaderError::UnexpectedEof { needed: 14 + len as u64 });
    }
    Ok(unmask(slice_subrange(data, 14, 14 + len), 0x64))
}

/// What follows the key block.
pub struct HeaderTail {
    /// The metadata block, unmasked.
    pub metadata: Vec<u8>,
    /// Where the cover starts.
    pub image_start: u64,
    /// How many bytes of the cover lie within the file.
    pub cover_len: u64,
}

/// What follows the key block.
pub struct TailView {
    pub metadata: Seq<u8>,
    pub image_start: int,
    pub cover_len: int,
}

impl View for HeaderTail {
    type V = TailView;

    open spec fn view(&self) -> TailView {
        TailView {
            metadata: self.metadata@,
            image_start: self.image_start as int,
            cover_len: self.cover_len as int,
        }
    }
}

/// The smaller of two numbers.
pub open spec fn min_of(a: int, b: int) -> int {
    if a <= b {
        a
    } else {
        b
    }
}

/// The part of the header from `p` on: a length and that many masked bytes of
/// metadata, nine reserved bytes, and the length of the cover. The cover is cut
/// at the end of the file.
pub open spec fn tail_of(data: Seq<u8>, p: int, total: u64) -> Result<TailView, HeaderError> {
    let q = p + 4 + le32_at(data, p);
    if data.len() < p + 4 {
        eof(p + 4)
    } else if data.len() < q {
        eof(q)
    } else if data.len() < q + 9 {
        eof(q + 9)
    } else if data.len() < q + 13 {
        eof(q + 13)
    } else {
        Ok(
            TailView {
                metadata: unmasked(data.subrange(p + 4, q), 0x63),
                image_start: q + 13,
                cover_len: min_of(
                    le32_at(data, q + 9),
                    if total >= q + 13 {
                        total - (q + 13)
                    } else {
                        0
                    },
                ),
            },
        )
    }
}

/// Reads the part of the header from `p` on.
pub fn read_tail(data: &[u8], p: usize, total: u64) -> (tail: Result<HeaderTail, HeaderError>)
    requires
        p <= data@.len(),
        p + 4294967312 <= u64::MAX,
    ensures
        match tail {
            Ok(t) => tail_of(data@, p as int, total) == Ok::<TailView, HeaderError>(t@),
            Err(e) => tail_of(data@, p as int, total) == Err::<TailView, HeaderError>(e),
        },
{
    if data.len() - p < 4 {
        return Err(HeaderError::UnexpectedEof { needed: p as u64 + 4 });
    }
    let len = read_le32(data, p);
    if data.len() - p - 4 < len {
        return Err(HeaderError::UnexpectedEof { needed: p as u64 + 4 + len as u64 });
    }
    let q = p + 4 + len;
    if data.len() - q < 9 {
        return Err(HeaderError::UnexpectedEof { needed: q as u64 + 9 });
    }
    if data.len() - q < 13 {
        return Err(HeaderError::UnexpectedEof { needed: q as u64 + 13 });
    }
    let metadata = unmask(slice_subrange(data, p + 4, q), 0x63);
    let image_start = q as u64 + 13;
    let declared = read_le32(data, q + 9) as u64;
    let avail = if total >= image_start {
        total - image_start
    } else {
        0
    };
    let cover_len = if declared <= avail {
        declared
    } else {
        avail
    };
    Ok(HeaderTail { metadata, image_start, cover_len })
}

/// The header of a file: the key box, the song, and where cover and audio are.
pub struct NcmHeader {
    pub keybox: [u8; 256],
    pub metadata: NcmMetadata,
    /// Start and length of the cover, if there is one.
    pub cover: Option<(u64, usize)>,
    pub audio_offset: u64,
}

/// The header of a file.
pub struct HeaderView {
    pub keybox: Seq<u8>,
    pub metadata: SongInfo,
    pub cover: Option<(int, int)>,
    pub audio_offset: int,
}

impl View for NcmHeader {
    type V = HeaderView;

    open spec fn view(&self) -> HeaderView {
        HeaderView {
            keybox: self.keybox@,
            metadata: self.metadata@,
            cover: match self.cover {
                Some((start, len)) => Some((start as int, len as int)),
                None => None,
            },
            audio_offset: self.audio_offset as int,
        }
    }
}

/// The song that the unmasked metadata block describes. The block may be empty,
/// and its first 22 bytes say nothing about the song.
pub open spec fn song_of_block(block: Seq<u8>) -> SongInfo {
    if block.len() == 0 {
        unknown_song()
    } else {
        song_in(block.skip(min_of(22, block.len() as int)))
    }
}

/// The decrypted key block.
pub open spec fn plain_key(block: Seq<u8>) -> Seq<u8> {
    unpadded(ecb(CORE_KEY@, block))
}

/// The header at the start of `data`, for a file of `total` bytes.
pub open spec fn header_of(data: Seq<u8>, total: u64) -> Result<HeaderView, HeaderError> {
    match key_block(data, total) {
        Err(e) => Err(e),
        Ok(block) => if plain_key(block).len() < 17 {
            Err(HeaderError::InvalidKey)
        } else {
            match tail_of(data, 14 + block.len() as int, total) {
                Err(e) => Err(e),
                Ok(tail) => Ok(
                    HeaderView {
                        keybox: keybox_of(plain_key(block).skip(17)),
                        metadata: song_of_block(tail.metadata),
                        cover: if tail.cover_len > 0 {
                            Some((tail.image_start, tail.cover_len))
                        } else {
                            None
                        },
                        audio_offset: tail.image_start + tail.cover_len,
                    },
                ),
            }
        },
    }
}

/// Whether the key is empty: the decrypted key block is nothing but its
/// seventeen-byte prefix.
pub open spec fn key_is_empty(data: Seq<u8>, total: u64) -> bool {
    key_block(data, total) matches Ok(block) && plain_key(block).len() == 17
}

/// Builds the header from the decrypted key block, and from the data behind the
/// `block_len` bytes of the key block.
pub fn header_from_key(data: &[u8], total: u64, key: &[u8], block_len: usize) -> (header: Result<
    NcmHeader,
    HeaderError,
>)
    requires
        14 + block_len <= data@.len(),
        block_len <= u32::MAX,
        key@.len() != 17,
    ensures
        match (header, tail_of(data@, 14 + block_len, total)) {
            (Err(e), _) if key@.len() < 17 => e == HeaderError::InvalidKey,
            (Err(e), Err(f)) => e == f,
            (Ok(h), Ok(tail)) => key@.len() > 17 && h@ == (HeaderView {
                keybox: keybox_of(key@.skip(17)),
                metadata: song_of_block(tail.metadata),
                cover: if tail.cover_len > 0 {
                    Some((tail.image_start, tail.cover_len))
                } else {
                    None
                },
                audio_offset: tail.image_start + tail.cover_len,
            }),
            _ => false,
        },
{
    let size = data.len();
    assert(14 + block_len <= size);
    if key.len() < 17 {
        return Err(HeaderError::InvalidKey);
    }
    let secret = slice_subrange(key, 17, key.len());
    assert(secret@ =~= key@.skip(17));
    let keybox = build_keybox(secret);
    match read_tail(data, 14 + block_len, total) {
        Err(e) => Err(e),
        Ok(tail) => {
            let block = &tail.metadata;
            let metadata = if block.len() == 0 {
                metadata_from(&None)
            } else {
                let from: usize = if block.len() < 22 {
                    block.len()
                } else {
                    22
                };
                let rest = slice_subrange(block, from, block.len());
                assert(rest@ =~= block@.skip(min_of(22, block@.len() as int)));
                parse_metadata(rest)
            };
            let cover = if tail.cover_len > 0 {
                Some((tail.image_start, tail.cover_len as usize))
            } else {
                None
            };
            Ok(
                NcmHeader {
                    keybox,
                    metadata,
                    cover,
                    audio_offset: tail.image_start + tail.cover_len,
                },
            )
        },
    }
}

/// Reads the header at the start of `data`, for a file of `total` bytes. `data`
/// may be a part of the file: where it ends too early, the error says how many
/// bytes the next field needs.
///
/// A header with an empty key is not accepted.
pub fn read_header(data: &[u8], total: u64) -> (header: Result<NcmHeader, HeaderError>)
    requires
        !key_is_empty(data@, total),
    ensures
        match header {
            Ok(h) => header_of(data@, total) == Ok::<HeaderView, HeaderError>(h@),
            Err(e) => header_of(data@, total) == Err::<HeaderView, HeaderError>(e),
        },
{
    match read_key_block(data, total) {
        Err(e) => Err(e),
        Ok(block) => {
            let key = aes_ecb_decrypt(&CORE_KEY, &block);
            header_from_key(data, total, &key, block.len())
        },
    }
}

/// Reads the header as `read_header` does. `None` means that the key is empty.
pub fn try_read_header(data: &[u8], total: u64) -> (header: Option<Result<NcmHeader, HeaderError>>)
    ensures
        match header {
            None => key_is_empty(data@, total),
            Some(Ok(h)) => !key_is_empty(data@, total) && header_of(data@, total) == Ok::<
                HeaderView,
                HeaderError,
            >(h@),
            Some(Err(e)) => !key_is_empty(data@, total) && header_of(data@, total) == Err::<
                HeaderView,
                HeaderError,
            >(e),
        },
{
    if let Ok(block) = read_key_block(data, total) {
        if aes_ecb_decrypt(&CORE_KEY, &block).len() == 17 {
            return None;
        }
    }
    Some(read_header(data, total))
}

/// Where the parts of a file with a valid header lie: the cover, where there is
/// one, is not empty and is followed at once by the audio, and the audio starts
/// within the file.
pub proof fn law_cover_precedes_audio(data: Seq<u8>, total: u64)
    requires
        header_of(data, total) is Ok,
        data.len() <= total,
    ensures
        ({
            let h = header_of(data, total)->Ok_0;
            &&& 0 <= h.audio_offset <= total
            &&& match h.cover {
                Some((start, len)) => 0 <= start && 0 < len && start + len == h.audio_offset,
                None => true,
            }
        }),
{
}

proof fn lemma_le32_prefix(data: Seq<u8>, more: Seq<u8>, p: int)
    requires
        0 <= p,
        p + 4 <= data.len(),
    ensures
        le32_at(data + more, p) == le32_at(data, p),
        0 <= le32_at(data, p) <= u32::MAX,
{
}

proof fn lemma_key_block_prefix(data: Seq<u8>, more: Seq<u8>, total: u64)
    ensures
        match key_block(data, total) {
            Err(HeaderError::UnexpectedEof { needed }) => needed > data.len(),
            other => key_block(data + more, total) == other,
        },
{
    let all = data + more;
    if data.len() >= 10 {
        assert(all.take(8) =~= data.take(8));
        if data.len() >= 14 {
            lemma_le32_prefix(data, more, 10);
            let len = le32_at(data, 10);
            if data.len() >= 14 + len {
                assert(all.subrange(14, 14 + len) =~= data.subrange(14, 14 + len));
            }
        }
    }
}

proof fn lemma_tail_prefix(data: Seq<u8>, more: Seq<u8>, p: int, total: u64)
    requires
        0 <= p,
        p + 4294967312 <= u64::MAX,
    ensures
        match tail_of(data, p, total) {
            Err(HeaderError::UnexpectedEof { needed }) => needed > data.len(),
            Err(_) => false,
            Ok(tail) => tail_of(data + more, p, total) == Ok::<TailView, HeaderError>(tail),
        },
{
    let all = data + more;
    if data.len() >= p + 4 {
        lemma_le32_prefix(data, more, p);
        let q = p + 4 + le32_at(data, p);
        if data.len() >= q + 13 {
            lemma_le32_prefix(data, more, q + 9);
            assert(all.subrange(p + 4, q) =~= data.subrange(p + 4, q));
        }
    }
}

/// The header can be read from the front of a file: whatever is found there
/// holds of the whole file, and only "the data ends too early" asks for more
/// bytes, more than there are.
pub proof fn law_header_needs_no_more(data: Seq<u8>, more: Seq<u8>, total: u64)
    ensures
        match header_of(data, total) {
            Err(HeaderError::UnexpectedEof { needed }) => needed > data.len(),
            other => header_of(data + more, total) == other,
        },
{
    lemma_key_block_prefix(data, more, total);
    if let Ok(block) = key_block(data, total) {
        lemma_le32_prefix(data, more, 10);
        lemma_tail_prefix(data, more, 14 + block.len() as int, total);
    }
}

} // verus!
