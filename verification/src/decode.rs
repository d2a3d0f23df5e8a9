//! From a container file to a tagged audio file and its cover.

use vstd::prelude::*;
use vstd::slice::slice_subrange;
use crate::bytes::{append, begins_with, copy_range, starts_with};
use crate::flac::{
    append_flac_metadata, comment_block, comments_are_complete, comments_complete, comments_of,
    declared_count, is_flac, metadata_entries, payload_at, vendor_readable, with_entries,
};
use crate::flac_content_laws::lemma_png;
use crate::id3::{
    append_id3_metadata, is_png, marker, png_marker, tag_fits, tag_is_complete, tag_size,
    with_metadata,
};
use crate::id3_content_laws::law_tags_open_with_their_letters;
use crate::ncm_decrypt::{
    build_stream_lut, law_stream_in_pieces, law_stream_undoes_itself, stream_decrypt_in_place,
    stream_lut, streamed,
};
use crate::ncm_file::{
    header_of, key_is_empty, law_cover_precedes_audio, law_header_needs_no_more, min_of,
    read_header, try_read_header, HeaderError, HeaderView, NcmMetadata, SongInfo,
};
use crate::text::{append_str, chars_of, string_of};

verus! {

/// How many bytes of audio are decrypted at a time.
pub const CHUNK: usize = 1048576;

/// The progress at the start, in percent.
pub const READ_PCT: u8 = 2;

/// The progress when the tags are written, in percent.
pub const TAGS_PCT: u8 = 92;

/// The progress when the cover is written, in percent.
pub const COVER_PCT: u8 = 96;

/// The progress at the end, in percent.
pub const DONE_PCT: u8 = 100;

/// The container of the decrypted audio.
#[derive(Clone, Copy, Debug, PartialEq, Eq, Structural)]
pub enum AudioKind {
    Flac,
    Mp3,
}

impl AudioKind {
    pub open spec fn text(self) -> Seq<char> {
        match self {
            AudioKind::Flac => "flac"@,
            AudioKind::Mp3 => "mp3"@,
        }
    }

    /// The file extension.
    pub fn extension(&self) -> (ext: &'static str)
        ensures
            ext@ == self.text(),
    {
        match self {
            AudioKind::Flac => "flac",
            AudioKind::Mp3 => "mp3",
        }
    }
}

/// The container of the audio, by its first bytes: a FLAC marker, an ID3 tag or
/// an MPEG frame header. Anything else counts as FLAC.
pub open spec fn kind_of(audio: Seq<u8>) -> AudioKind {
    if is_flac(audio) {
        AudioKind::Flac
    } else if begins_with(audio, marker()) {
        AudioKind::Mp3
    } else if audio.len() >= 2 && audio[0] == 0xff && audio[1] & 0xe0 == 0xe0 {
        AudioKind::Mp3
    } else {
        AudioKind::Flac
    }
}

/// The container of the audio. Four bytes are enough to tell.
pub fn detect(probe: &[u8]) -> (kind: AudioKind)
    ensures
        kind == kind_of(probe@),
{
    let flac: [u8; 4] = [0x66, 0x4c, 0x61, 0x43];
    let id3: [u8; 3] = [0x49, 0x44, 0x33];
    assert(flac@ =~= seq![0x66u8, 0x4c, 0x61, 0x43]);
    assert(id3@ =~= marker());
    if starts_with(probe, &flac) {
        AudioKind::Flac
    } else if starts_with(probe, &id3) {
        AudioKind::Mp3
    } else if probe.len() >= 2 && probe[0] == 0xff && probe[1] & 0xe0 == 0xe0 {
        AudioKind::Mp3
    } else {
        AudioKind::Flac
    }
}

/// The first four bytes decide the container.
pub proof fn law_four_bytes_decide(audio: Seq<u8>)
    ensures
        kind_of(audio.take(min_of(4, audio.len() as int))) == kind_of(audio),
{
    let probe = audio.take(min_of(4, audio.len() as int));
    assert(audio.len() >= 4 ==> probe.take(4) =~= audio.take(4));
    assert(audio.len() >= 3 ==> probe.take(3) =~= audio.take(3));
}

/// The progress of the job, in percent, after `written` of `span` bytes of
/// audio. Decrypting the audio counts for the first 90 percent.
pub open spec fn percent(written: int, span: int) -> int {
    min_of((written * 90 / span) % 256, 90)
}

/// Decrypts audio piece by piece.
pub struct AudioDecoder {
    pub lut: [u8; 256],
    /// How many bytes were decrypted.
    pub written: usize,
    /// How many bytes are expected.
    pub span: u64,
    /// The progress that was last reported.
    pub last_pct: u8,
}

impl AudioDecoder {
    pub open spec fn wf(self) -> bool {
        self.span > 0
    }

    /// A decoder for the audio that starts at `audio_start` of a file of `total`
    /// bytes.
    pub fn new(keybox: &[u8; 256], total: u64, audio_start: u64) -> (d: AudioDecoder)
        ensures
            d.wf(),
            d.lut@ == stream_lut(keybox@),
            d.written == 0,
            d.span == if total > audio_start {
                total - audio_start
            } else {
                1
            },
            d.last_pct == 0,
    {
        let span = if total > audio_start {
            total - audio_start
        } else {
            1
        };
        AudioDecoder { lut: build_stream_lut(keybox), written: 0, span, last_pct: 0 }
    }

    /// Decrypts the next piece in place, and returns the progress if it changed.
    pub fn feed(&mut self, piece: &mut [u8]) -> (pct: Option<u8>)
        requires
            old(self).wf(),
            old(self).written + old(piece)@.len() <= usize::MAX,
            (old(self).written + old(piece)@.len()) * 90 <= u64::MAX,
        ensures
            final(self).wf(),
            final(piece)@ == streamed(old(self).lut@, old(self).written as int, old(piece)@),
            final(self).lut == old(self).lut,
            final(self).span == old(self).span,
            final(self).written == old(self).written + old(piece)@.len(),
            final(self).last_pct == percent(final(self).written as int, old(self).span as int),
            pct == if final(self).last_pct != old(self).last_pct {
                Some(final(self).last_pct)
            } else {
                None
            },
    {
        let len = piece.len();
        stream_decrypt_in_place(&self.lut, self.written, piece);
        self.written = self.written + len;
        let share = self.written as u64 * 90 / self.span % 256;
        let now: u8 = if share <= 90 {
            share as u8
        } else {
            90
        };
        if now != self.last_pct {
            self.last_pct = now;
            Some(now)
        } else {
            None
        }
    }
}

/// The progress reported while `len` bytes of audio are decrypted in chunks,
/// from `done` bytes on, after `last` was reported.
pub open spec fn percents(len: int, done: int, span: int, last: int) -> Seq<u8>
    decreases len - done,
{
    if done >= len {
        Seq::empty()
    } else {
        let next = min_of(done + CHUNK, len);
        let now = percent(next, span);
        (if now != last {
            seq![now as u8]
        } else {
            Seq::empty()
        }) + percents(len, next, span, now)
    }
}

/// Decrypts audio in chunks, and collects the progress.
pub fn decode_audio(keybox: &[u8; 256], audio: &[u8], span: u64) -> (out: (Vec<u8>, Vec<u8>))
    requires
        span > 0,
        audio@.len() * 90 <= u64::MAX,
    ensures
        out.0@ == streamed(stream_lut(keybox@), 0, audio@),
        out.1@ == percents(audio@.len() as int, 0, span as int, 0),
{
    let mut decoder = AudioDecoder { lut: build_stream_lut(keybox), written: 0, span, last_pct: 0 };
    let mut out: Vec<u8> = Vec::new();
    let mut pcts: Vec<u8> = Vec::new();
    let len = audio.len();
    let mut done: usize = 0;
    assert(out@ =~= streamed(decoder.lut@, 0, audio@.take(0)));
    assert(pcts@ + percents(len as int, 0, span as int, 0) =~= percents(
        len as int,
        0,
        span as int,
        0,
    ));
    while done < len
        invariant
            done <= len == audio@.len(),
            audio@.len() * 90 <= u64::MAX,
            decoder.wf(),
            decoder.lut@ == stream_lut(keybox@),
            decoder.span == span,
            decoder.written == done,
            out@ == streamed(stream_lut(keybox@), 0, audio@.take(done as int)),
            pcts@ + percents(len as int, done as int, span as int, decoder.last_pct as int)
                == percents(len as int, 0, span as int, 0),
        decreases len - done,
    {
        let next = if len - done > CHUNK {
            done + CHUNK
        } else {
            len
        };
        let mut piece = copy_range(audio, done, next);
        let ghost before = pcts@;
        let ghost last = decoder.last_pct as int;
        let pct = decoder.feed(piece.as_mut_slice());
        append(&mut out, &piece);
        if let Some(p) = pct {
            pcts.push(p);
        }
        proof {
            law_stream_in_pieces(
                stream_lut(keybox@),
                0,
                audio@.take(done as int),
                audio@.subrange(done as int, next as int),
            );
            assert(audio@.take(next as int) =~= audio@.take(done as int) + audio@.subrange(
                done as int,
                next as int,
            ));
            let now = percent(next as int, span as int);
            let here = if now != last {
                seq![now as u8]
            } else {
                Seq::empty()
            };
            assert(pcts@ =~= before + here);
            assert(pcts@ + percents(len as int, next as int, span as int, now) =~= before + (here
                + percents(len as int, next as int, span as int, now)));
        }
        done = next;
    }
    assert(audio@.take(len as int) =~= audio@);
    assert(pcts@ =~= pcts@ + percents(len as int, done as int, span as int, decoder.last_pct as int));
    (out, pcts)
}

/// Whether the tags of the audio can be written: a tag lies within the audio, and
/// a comment block holds what it declares.
pub open spec fn taggable(kind: AudioKind, audio: Seq<u8>) -> bool {
    match kind {
        AudioKind::Mp3 => tag_fits(audio),
        AudioKind::Flac => comments_complete(audio),
    }
}

/// Whether the tags of the audio can be written.
pub fn is_taggable(kind: AudioKind, audio: &[u8]) -> (yes: bool)
    ensures
        yes == taggable(kind, audio@),
{
    match kind {
        AudioKind::Mp3 => tag_is_complete(audio),
        AudioKind::Flac => comments_are_complete(audio),
    }
}

/// The audio with title, artist and album in its tags. Audio that is no valid
/// FLAC stream stays as it is.
pub open spec fn tagged(kind: AudioKind, audio: Seq<u8>, song: SongInfo) -> Seq<u8> {
    match kind {
        AudioKind::Mp3 => with_metadata(audio, song.title, song.artist, song.album),
        AudioKind::Flac => match with_entries(
            audio,
            metadata_entries(song.title, song.artist, song.album),
        ) {
            Ok(new) => new,
            Err(_) => audio,
        },
    }
}

/// Writes title, artist and album into the tags of the audio.
pub fn write_tags(kind: AudioKind, audio: Vec<u8>, song: &NcmMetadata) -> (out: Vec<u8>)
    requires
        taggable(kind, audio@),
    ensures
        out@ == tagged(kind, audio@, song@),
{
    match kind {
        AudioKind::Mp3 => append_id3_metadata(
            audio,
            &song.title,
            &song.artist,
            &song.album,
            song.picture_type,
        ),
        AudioKind::Flac => {
            let mut data = audio;
            let _ = append_flac_metadata(&mut data, &song.title, &song.artist, &song.album);
            data
        },
    }
}

/// The extension of a cover file.
pub open spec fn cover_ending(cover: Seq<u8>) -> Seq<char> {
    if begins_with(cover, png_marker()) {
        "png"@
    } else {
        "jpg"@
    }
}

/// The extension of a cover file.
pub fn cover_extension(cover: &[u8]) -> (ext: &'static str)
    ensures
        ext@ == cover_ending(cover@),
{
    if is_png(cover) {
        "png"
    } else {
        "jpg"
    }
}

/// The name of the audio file.
pub fn output_name(stem: &str, kind: AudioKind) -> (name: String)
    ensures
        name@ == stem@ + "."@ + kind.text(),
{
    let mut name = chars_of(stem);
    append_str(&mut name, ".");
    append_str(&mut name, kind.extension());
    string_of(&name)
}

/// The name of the cover file.
pub fn cover_name(stem: &str, cover: &[u8]) -> (name: String)
    ensures
        name@ == stem@ + ".cover."@ + cover_ending(cover@),
{
    let mut name = chars_of(stem);
    append_str(&mut name, ".cover.");
    append_str(&mut name, cover_extension(cover));
    string_of(&name)
}

/// The names that the cover file may have: as PNG and as JPEG.
pub fn cover_names(stem: &str) -> (names: (String, String))
    ensures
        names.0@ == stem@ + ".cover.png"@,
        names.1@ == stem@ + ".cover.jpg"@,
{
    let mut png = chars_of(stem);
    append_str(&mut png, ".cover.png");
    let mut jpg = chars_of(stem);
    append_str(&mut jpg, ".cover.jpg");
    (string_of(&png), string_of(&jpg))
}

/// What a job is doing.
#[derive(Clone, Copy, Debug, PartialEq, Eq, Structural)]
pub enum Stage {
    ReadFile,
    DecryptAudio,
    WriteTags,
    WriteCover,
    Done,
}

impl Stage {
    pub open spec fn text(self) -> Seq<char> {
        match self {
            Stage::ReadFile => "读取文件"@,
            Stage::DecryptAudio => "解密音频"@,
            Stage::WriteTags => "写入 Tag"@,
            Stage::WriteCover => "写入封面"@,
            Stage::Done => "完成"@,
        }
    }

    /// The text shown for the stage.
    pub fn label(&self) -> (text: &'static str)
        ensures
            text@ == self.text(),
    {
        match self {
            Stage::ReadFile => "读取文件",
            Stage::DecryptAudio => "解密音频",
            Stage::WriteTags => "写入 Tag",
            Stage::WriteCover => "写入封面",
            Stage::Done => "完成",
        }
    }
}

/// The stage that follows a stage. A cover is only written where there is one.
pub open spec fn stage_after(stage: Stage, has_cover: bool) -> Stage {
    match stage {
        Stage::ReadFile => Stage::DecryptAudio,
        Stage::DecryptAudio => Stage::WriteTags,
        Stage::WriteTags => if has_cover {
            Stage::WriteCover
        } else {
            Stage::Done
        },
        Stage::WriteCover | Stage::Done => Stage::Done,
    }
}

/// The progress that is reported when a stage begins. Decrypting the audio
/// reports as it goes.
pub open spec fn stage_pct(stage: Stage) -> Option<u8> {
    match stage {
        Stage::ReadFile => Some(READ_PCT),
        Stage::DecryptAudio => None,
        Stage::WriteTags => Some(TAGS_PCT),
        Stage::WriteCover => Some(COVER_PCT),
        Stage::Done => Some(DONE_PCT),
    }
}

impl Stage {
    /// The stage that follows.
    pub fn next(&self, has_cover: bool) -> (stage: Stage)
        ensures
            stage == stage_after(*self, has_cover),
    {
        match self {
            Stage::ReadFile => Stage::DecryptAudio,
            Stage::DecryptAudio => Stage::WriteTags,
            Stage::WriteTags => if has_cover {
                Stage::WriteCover
            } else {
                Stage::Done
            },
            _ => Stage::Done,
        }
    }

    /// The progress that is reported when the stage begins, if any.
    pub fn pct(&self) -> (pct: Option<u8>)
        ensures
            pct == stage_pct(*self),
    {
        match self {
            Stage::ReadFile => Some(READ_PCT),
            Stage::DecryptAudio => None,
            Stage::WriteTags => Some(TAGS_PCT),
            Stage::WriteCover => Some(COVER_PCT),
            Stage::Done => Some(DONE_PCT),
        }
    }
}

/// A report on a job: what it is doing, and how far it is in percent.
#[derive(Clone, Copy, Debug, PartialEq, Eq, Structural)]
pub struct Progress {
    pub stage: Stage,
    pub pct: u8,
}

/// The files that a container file holds.
pub struct Decoded {
    pub kind: AudioKind,
    pub audio: Vec<u8>,
    pub cover: Option<Vec<u8>>,
}

/// The files that a container file holds.
pub struct DecodedView {
    pub kind: AudioKind,
    pub audio: Seq<u8>,
    pub cover: Option<Seq<u8>>,
}

impl View for Decoded {
    type V = DecodedView;

    open spec fn view(&self) -> DecodedView {
        DecodedView {
            kind: self.kind,
            audio: self.audio@,
            cover: match self.cover {
                Some(c) => Some(c@),
                None => None,
            },
        }
    }
}

/// The decrypted audio of a file with this header.
pub open spec fn plain_audio(file: Seq<u8>, header: HeaderView) -> Seq<u8> {
    streamed(stream_lut(header.keybox), 0, file.skip(header.audio_offset))
}

/// The files that a container file holds: its audio, decrypted and tagged, and
/// its cover.
pub open spec fn decoded(file: Seq<u8>) -> Result<DecodedView, HeaderError> {
    match header_of(file, file.len() as u64) {
        Err(e) => Err(e),
        Ok(h) => {
            let audio = plain_audio(file, h);
            Ok(
                DecodedView {
                    kind: kind_of(audio),
                    audio: tagged(kind_of(audio), audio, h.metadata),
                    cover: match h.cover {
                        Some((start, len)) => Some(file.subrange(start, start + len)),
                        None => None,
                    },
                },
            )
        },
    }
}

/// What is reported while audio of `len` bytes is decrypted.
pub open spec fn audio_reports(len: int) -> Seq<Progress> {
    percents(
        len,
        0,
        if len > 0 {
            len
        } else {
            1
        },
        0,
    ).map_values(|pct: u8| Progress { stage: Stage::DecryptAudio, pct })
}

/// One report.
pub open spec fn report(stage: Stage, pct: u8) -> Progress {
    Progress { stage, pct }
}

/// What is reported while a file is decoded.
pub open spec fn reports(file: Seq<u8>) -> Seq<Progress> {
    match header_of(file, file.len() as u64) {
        Err(_) => seq![report(Stage::ReadFile, READ_PCT)],
        Ok(h) => seq![report(Stage::ReadFile, READ_PCT)] + audio_reports(file.len() - h.audio_offset)
            + seq![report(Stage::WriteTags, TAGS_PCT)] + (if h.cover is Some {
            seq![report(Stage::WriteCover, COVER_PCT)]
        } else {
            Seq::empty()
        }) + seq![report(Stage::Done, DONE_PCT)],
    }
}

/// Whether a file can be decoded, or refused with an error: its key is not
/// empty, and its audio can be tagged.
pub open spec fn processable(file: Seq<u8>) -> bool {
    !key_is_empty(file, file.len() as u64) && match header_of(file, file.len() as u64) {
        Err(_) => true,
        Ok(h) => taggable(kind_of(plain_audio(file, h)), plain_audio(file, h)),
    }
}

/// Decodes a container file, and lists what was reported on the way.
pub fn process_ncm_file_with_progress(file: &[u8]) -> (out: (
    Vec<Progress>,
    Result<Decoded, HeaderError>,
))
    requires
        processable(file@),
        file@.len() * 90 <= u64::MAX,
    ensures
        out.0@ == reports(file@),
        match out.1 {
            Ok(d) => decoded(file@) == Ok::<DecodedView, HeaderError>(d@),
            Err(e) => decoded(file@) == Err::<DecodedView, HeaderError>(e),
        },
{
    let total = file.len();
    let mut events: Vec<Progress> = Vec::new();
    events.push(Progress { stage: Stage::ReadFile, pct: READ_PCT });
    let header = match read_header(file, total as u64) {
        Err(e) => {
            assert(events@ =~= reports(file@));
            return (events, Err(e));
        },
        Ok(h) => h,
    };
    proof {
        law_cover_precedes_audio(file@, total as u64);
    }
    let start = header.audio_offset as usize;
    let encrypted = slice_subrange(file, start, total);
    assert(encrypted@ =~= file@.skip(start as int));
    let span = if total > start {
        (total - start) as u64
    } else {
        1
    };
    let (audio, pcts) = decode_audio(&header.keybox, encrypted, span);
    push_reports(&mut events, &pcts);
    events.push(Progress { stage: Stage::WriteTags, pct: TAGS_PCT });
    let kind = detect(&audio);
    let out = write_tags(kind, audio, &header.metadata);
    let cover = match header.cover {
        Some((from, len)) => {
            events.push(Progress { stage: Stage::WriteCover, pct: COVER_PCT });
            Some(copy_range(file, from as usize, from as usize + len))
        },
        None => None,
    };
    events.push(Progress { stage: Stage::Done, pct: DONE_PCT });
    assert(events@ =~= reports(file@));
    (events, Ok(Decoded { kind, audio: out, cover }))
}

fn push_reports(events: &mut Vec<Progress>, pcts: &Vec<u8>)
    ensures
        final(events)@ == old(events)@ + pcts@.map_values(
            |pct: u8| Progress { stage: Stage::DecryptAudio, pct },
        ),
{
    let mut i: usize = 0;
    let ghost f = |pct: u8| Progress { stage: Stage::DecryptAudio, pct };
    while i < pcts.len()
        invariant
            i <= pcts@.len(),
            f == (|pct: u8| Progress { stage: Stage::DecryptAudio, pct }),
            events@ == old(events)@ + pcts@.take(i as int).map_values(f),
        decreases pcts.len() - i,
    {
        events.push(Progress { stage: Stage::DecryptAudio, pct: pcts[i] });
        i += 1;
        assert(events@ =~= old(events)@ + pcts@.take(i as int).map_values(f));
    }
    assert(pcts@.take(pcts@.len() as int) =~= pcts@);
}

/// Decodes a container file.
pub fn process_ncm_file(file: &[u8]) -> (out: Result<Decoded, HeaderError>)
    requires
        processable(file@),
        file@.len() * 90 <= u64::MAX,
    ensures
        match out {
            Ok(d) => decoded(file@) == Ok::<DecodedView, HeaderError>(d@),
            Err(e) => decoded(file@) == Err::<DecodedView, HeaderError>(e),
        },
{
    let (_, out) = process_ncm_file_with_progress(file);
    out
}

/// Whether a file can be decoded, or refused with an error.
pub fn is_processable(file: &[u8]) -> (yes: bool)
    requires
        file@.len() * 90 <= u64::MAX,
    ensures
        yes == processable(file@),
{
    let total = file.len();
    match try_read_header(file, total as u64) {
        None => false,
        Some(Err(_)) => true,
        Some(Ok(header)) => {
            proof {
                law_cover_precedes_audio(file@, total as u64);
            }
            let start = header.audio_offset as usize;
            let encrypted = slice_subrange(file, start, total);
            assert(encrypted@ =~= file@.skip(start as int));
            let (audio, _) = decode_audio(&header.keybox, encrypted, 1);
            is_taggable(detect(&audio), &audio)
        },
    }
}

/// Decodes a container file as `process_ncm_file_with_progress` does. `None`
/// means that the key is empty or that the audio cannot be tagged.
pub fn try_process_ncm_file(file: &[u8]) -> (out: Option<
    (Vec<Progress>, Result<Decoded, HeaderError>),
>)
    requires
        file@.len() * 90 <= u64::MAX,
    ensures
        match out {
            None => !processable(file@),
            Some((events, result)) => processable(file@) && events@ == reports(file@)
                && match result {
                Ok(d) => decoded(file@) == Ok::<DecodedView, HeaderError>(d@),
                Err(e) => decoded(file@) == Err::<DecodedView, HeaderError>(e),
            },
        },
{
    if is_processable(file) {
        Some(process_ncm_file_with_progress(file))
    } else {
        None
    }
}

proof fn lemma_percent_grows(a: int, b: int, len: int)
    requires
        0 <= a <= b <= len,
        0 < len,
    ensures
        0 <= percent(a, len) <= percent(b, len) <= 90,
        percent(len, len) == 90,
        percent(0, len) == 0,
{
    assert(0 <= a * 90 / len <= b * 90 / len <= 90 && len * 90 / len == 90) by (nonlinear_arith)
        requires
            0 <= a <= b <= len,
            0 < len,
    ;
    assert(0int * 90 / len == 0) by (nonlinear_arith)
        requires
            0 < len,
    ;
}

proof fn lemma_percents_rise(len: int, done: int)
    requires
        0 <= done <= len,
        0 < len,
    ensures
        ({
            let s = percents(len, done, len, percent(done, len));
            &&& forall|i: int, j: int| 0 <= i < j < s.len() ==> s[i] < s[j]
            &&& forall|i: int| 0 <= i < s.len() ==> percent(done, len) < #[trigger] s[i] <= 90
            &&& percent(done, len) < 90 ==> s.len() > 0 && s.last() == 90
        }),
    decreases len - done,
{
    lemma_percent_grows(done, len, len);
    let before = percent(done, len);
    let s = percents(len, done, len, before);
    if done < len {
        let next = min_of(done + CHUNK, len);
        let now = percent(next, len);
        lemma_percent_grows(done, next, len);
        lemma_percent_grows(next, len, len);
        lemma_percents_rise(len, next);
        let rest = percents(len, next, len, now);
        if now == before {
            assert(s =~= rest);
        } else {
            assert(s =~= seq![now as u8] + rest);
            assert forall|i: int| 0 <= i < s.len() implies before < #[trigger] s[i] <= 90 by {
                if i > 0 {
                    assert(s[i] == rest[i - 1]);
                }
            }
            assert forall|i: int, j: int| 0 <= i < j < s.len() implies s[i] < s[j] by {
                assert(s[j] == rest[j - 1]);
                if i > 0 {
                    assert(s[i] == rest[i - 1]);
                }
            }
            if rest.len() > 0 {
                assert(s.last() == rest.last());
            }
        }
    } else {
        assert(done == len);
        assert(s.len() == 0);
    }
}

/// Behind the first report progress only rises. It stays within 100 percent, and
/// the last report is 100 percent exactly when the file was decoded.
pub proof fn law_progress_rises(file: Seq<u8>)
    requires
        file.len() <= u64::MAX,
    ensures
        forall|i: int, j: int|
            0 < i < j < reports(file).len() ==> reports(file)[i].pct < reports(file)[j].pct,
        forall|i: int| 0 <= i < reports(file).len() ==> (#[trigger] reports(file)[i]).pct <= 100,
        reports(file).last().pct == 100 <==> decoded(file) is Ok,
{
    if let Ok(h) = header_of(file, file.len() as u64) {
        law_cover_precedes_audio(file, file.len() as u64);
        let len = file.len() - h.audio_offset;
        if len > 0 {
            lemma_percent_grows(0, len, len);
            lemma_percents_rise(len, 0);
        }
    }
}

/// Decoding gives back what was encrypted: of a file whose audio went through
/// the keystream of its header, the decrypted audio is the audio itself.
pub proof fn law_audio_comes_back(head: Seq<u8>, audio: Seq<u8>)
    requires
        head.len() + audio.len() <= u64::MAX,
        header_of(head, (head.len() + audio.len()) as u64) matches Ok(h) && h.audio_offset
            == head.len(),
    ensures
        ({
            let h = header_of(head, (head.len() + audio.len()) as u64)->Ok_0;
            let file = head + streamed(stream_lut(h.keybox), 0, audio);
            &&& header_of(file, file.len() as u64) == Ok::<HeaderView, HeaderError>(h)
            &&& plain_audio(file, h) == audio
        }),
{
    let total = (head.len() + audio.len()) as u64;
    let h = header_of(head, total)->Ok_0;
    let hidden = streamed(stream_lut(h.keybox), 0, audio);
    law_header_needs_no_more(head, hidden, total);
    law_stream_undoes_itself(stream_lut(h.keybox), 0, audio);
    assert((head + hidden).skip(head.len() as int) =~= hidden);
}

/// The reports on a file that is decoded go through the stages in their order,
/// from the first to the last: from one report to the next the stage stays, or
/// gives way to the one that follows; audio that is empty reports nothing. At
/// the start of a stage its fixed progress is reported.
pub proof fn law_stages_are_in_order(file: Seq<u8>)
    requires
        header_of(file, file.len() as u64) is Ok,
    ensures
        ({
            let has_cover = header_of(file, file.len() as u64)->Ok_0.cover is Some;
            let list = reports(file);
            &&& list[0].stage == Stage::ReadFile
            &&& list.last().stage == Stage::Done
            &&& forall|i: int|
                0 <= i < list.len() ==> match stage_pct((#[trigger] list[i]).stage) {
                    Some(pct) => list[i].pct == pct,
                    None => true,
                }
            &&& forall|i: int|
                0 <= i < list.len() - 1 ==> {
                    let this = (#[trigger] list[i]).stage;
                    let next = list[i + 1].stage;
                    ||| this == Stage::DecryptAudio && next == this
                    ||| next == stage_after(this, has_cover)
                    ||| this == Stage::ReadFile && next == stage_after(
                        Stage::DecryptAudio,
                        has_cover,
                    )
                }
        }),
{
    let h = header_of(file, file.len() as u64)->Ok_0;
    let audio = audio_reports(file.len() - h.audio_offset);
    let list = reports(file);
    let n = audio.len() as int;
    assert(forall|i: int| 0 <= i < n ==> (#[trigger] audio[i]).stage == Stage::DecryptAudio);
    assert(list[0] == report(Stage::ReadFile, READ_PCT));
    assert forall|i: int| 1 <= i <= n implies (#[trigger] list[i]).stage == Stage::DecryptAudio by {
        assert(list[i] == audio[i - 1]);
    }
    assert(list[n + 1] == report(Stage::WriteTags, TAGS_PCT));
    if h.cover is Some {
        assert(list[n + 2] == report(Stage::WriteCover, COVER_PCT));
        assert(list[n + 3] == report(Stage::Done, DONE_PCT));
        assert(list.len() == n + 4);
    } else {
        assert(list[n + 2] == report(Stage::Done, DONE_PCT));
        assert(list.len() == n + 3);
    }
}

/// How many bytes of `len` are decrypted after chunk `k`. A chunk has one mebibyte.
pub open spec fn chunk_end(len: int, k: int) -> int {
    if (k + 1) * 1048576 < len {
        (k + 1) * 1048576
    } else {
        len
    }
}

/// The share of the audio that is decrypted after chunk `k`, out of 90.
pub open spec fn chunk_share(len: int, k: int) -> int {
    chunk_end(len, k) * 90 / len
}

/// Whether `v` is the share after chunk `j` or a later one.
pub open spec fn share_from(len: int, j: int, v: int) -> bool {
    exists|k: int| j <= k && k * 1048576 < len && #[trigger] chunk_share(len, k) == v
}

proof fn lemma_chunk_shares(len: int, j: int)
    requires
        0 < len,
        0 <= j,
    ensures
        ({
            let done = min_of(j * 1048576, len);
            let s = percents(len, done, len, percent(done, len));
            &&& forall|k: int|
                j <= k && k * 1048576 < len && #[trigger] chunk_share(len, k) > percent(done, len)
                    ==> s.contains(chunk_share(len, k) as u8)
            &&& forall|i: int| 0 <= i < s.len() ==> share_from(len, j, #[trigger] s[i] as int)
        }),
    decreases len - j * 1048576 + 1048576,
{
    let done = min_of(j * 1048576, len);
    let last = percent(done, len);
    let s = percents(len, done, len, last);
    if done < len {
        let next = min_of(done + CHUNK, len);
        let now = percent(next, len);
        assert(next == chunk_end(len, j));
        assert(next == min_of((j + 1) * 1048576, len));
        lemma_percent_grows(done, next, len);
        lemma_percent_grows(next, len, len);
        law_percent_is_a_share(next, len);
        lemma_chunk_shares(len, j + 1);
        let rest = percents(len, next, len, now);
        let here = if now != last {
            seq![now as u8]
        } else {
            Seq::empty()
        };
        assert(s =~= here + rest);
        assert forall|k: int|
            j <= k && k * 1048576 < len && #[trigger] chunk_share(len, k) > last implies s.contains(
            chunk_share(len, k) as u8,
        ) by {
            lemma_percent_grows(next, chunk_end(len, k), len);
            law_percent_is_a_share(chunk_end(len, k), len);
            if chunk_share(len, k) == now {
                assert(s[0] == now as u8);
            } else {
                assert(j + 1 <= k);
                assert(rest.contains(chunk_share(len, k) as u8));
                let i = choose|i: int| 0 <= i < rest.len() && rest[i] == chunk_share(len, k) as u8;
                assert(s[here.len() + i] == rest[i]);
            }
        }
        assert forall|i: int| 0 <= i < s.len() implies share_from(len, j, #[trigger] s[i] as int) by {
            if i < here.len() {
                assert(chunk_share(len, j) == s[i]);
            } else {
                assert(rest[i - here.len()] == s[i]);
                assert(share_from(len, j + 1, s[i] as int));
            }
        }
    }
}

/// The progress after `written` of `len` bytes is their share of 90, cut to a whole
/// number.
pub proof fn law_percent_is_a_share(written: int, len: int)
    requires
        0 <= written <= len,
        0 < len,
    ensures
        percent(written, len) == written * 90 / len,
        0 <= percent(written, len) * len <= written * 90 < (percent(written, len) + 1) * len,
        0 <= percent(written, len) <= 90,
{
    let p = written * 90 / len;
    assert(0 <= p <= 90 && 0 <= p * len <= written * 90 < (p + 1) * len) by (nonlinear_arith)
        requires
            0 <= written <= len,
            0 < len,
            p == written * 90 / len,
    ;
}

/// Progress is the share of the audio that is decrypted, out of 90: every report
/// is that of one chunk, and each chunk after which the share is not zero has a
/// report with its share.
pub proof fn law_progress_is_the_share(len: int)
    requires
        0 < len,
    ensures
        ({
            let s = percents(len, 0, len, 0);
            &&& forall|k: int|
                0 <= k && k * 1048576 < len && #[trigger] chunk_share(len, k) > 0 ==> s.contains(
                    chunk_share(len, k) as u8,
                )
            &&& forall|i: int| 0 <= i < s.len() ==> share_from(len, 0, #[trigger] s[i] as int)
        }),
        audio_reports(len).len() == percents(len, 0, len, 0).len(),
        forall|i: int|
            0 <= i < audio_reports(len).len() ==> (#[trigger] audio_reports(len)[i]).pct == percents(
                len,
                0,
                len,
                0,
            )[i],
{
    law_percent_is_a_share(0, len);
    assert(0int * 90 / len == 0) by (nonlinear_arith)
        requires
            0 < len,
    ;
    lemma_chunk_shares(len, 0);
    assert(min_of(0int * 1048576, len) == 0);
    assert(percent(0, len) == 0);
}

/// Audio can be tagged unless its tag or its comments go beyond its data: an MP3
/// whose tag, if any, lies within it, and any data that is no FLAC stream or is one
/// without comments.
pub proof fn law_what_can_be_tagged(audio: Seq<u8>)
    ensures
        taggable(AudioKind::Mp3, audio) <==> !(audio.len() >= 10 && audio[0] == 73 && audio[1] == 68
            && audio[2] == 51 && 10 + (audio[6] % 128) * 2097152 + (audio[7] % 128) * 16384 + (
        audio[8] % 128) * 128 + audio[9] % 128 > audio.len()),
        !is_flac(audio) ==> taggable(AudioKind::Flac, audio),
        !(comment_block(audio, 4) matches Ok(Some(_))) ==> taggable(AudioKind::Flac, audio),
        match comment_block(audio, 4) {
            Ok(Some(h)) => vendor_readable(audio, h) && comments_of(payload_at(audio, h)).len()
                == declared_count(payload_at(audio, h)) ==> taggable(AudioKind::Flac, audio),
            _ => true,
        },
{
    law_tags_open_with_their_letters(audio);
    reveal(tag_size);
}

/// The extension of a cover file tells its type.
pub proof fn law_cover_ending(cover: Seq<u8>)
    ensures
        cover_ending(cover) == if cover.len() >= 4 && cover[0] == 137 && cover[1] == 80 && cover[2]
            == 78 && cover[3] == 71 {
            "png"@
        } else {
            "jpg"@
        },
{
    lemma_png(cover);
}

/// A file that is refused is read and nothing more: there is one report, and no
/// file comes out of it.
pub proof fn law_refused_files(file: Seq<u8>)
    ensures
        match header_of(file, file.len() as u64) {
            Err(e) => decoded(file) == Err::<DecodedView, HeaderError>(e) && reports(file).len() == 1
                && reports(file)[0].stage == Stage::ReadFile && reports(file)[0].pct == 2,
            Ok(_) => decoded(file) is Ok && reports(file).len() >= 3,
        },
{
}

} // verus!
