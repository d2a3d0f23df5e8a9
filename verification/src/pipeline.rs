//! One job: decode a file, put cover and lyrics in, trim the tags, and delete the
//! file that was decoded.

use vstd::prelude::*;
use crate::decode::AudioKind;
use crate::flac::{
    append_flac_cover, append_flac_lyrics, comment_block, comments_complete, comments_of,
    comments_readable, essential, is_flac, last_block, lyrics_entry, minimal_flac, payload_at,
    picture_payload, with_block, with_comments, with_entries, FlacError,
};
use crate::id3::{
    append_id3_cover, append_id3_lyrics, apic, cover_body, has_tag, lyrics_body, minimal_id3,
    tag_end, tag_fits, trimmed_tag, txxx, with_frame,
};
use crate::text::{
    append_str, chars_of, decimal, lossy_text, push_number, string_of,
};

verus! {

/// One file to process.
#[derive(Clone, Debug)]
pub struct Job {
    pub input: String,
    pub filename: String,
    /// Files that wait behind this one.
    pub pending: usize,
    /// Files that were finished in this session.
    pub processed: usize,
}

/// The level of a log line.
#[derive(Clone, Copy, Debug, PartialEq, Eq, Structural)]
pub enum Level {
    Info,
    Error,
}

impl Level {
    pub open spec fn text(self) -> Seq<char> {
        match self {
            Level::Info => "INFO"@,
            Level::Error => "ERROR"@,
        }
    }

    /// The name of the level.
    pub fn name(&self) -> (text: &'static str)
        ensures
            text@ == self.text(),
    {
        match self {
            Level::Info => "INFO",
            Level::Error => "ERROR",
        }
    }
}

/// A message for the log.
pub struct Entry {
    pub level: Level,
    pub message: String,
}

/// A message for the log.
pub struct EntryView {
    pub level: Level,
    pub message: Seq<char>,
}

impl View for Entry {
    type V = EntryView;

    open spec fn view(&self) -> EntryView {
        EntryView { level: self.level, message: self.message@ }
    }
}

/// The view of a message that may be missing.
pub open spec fn entry_view(entry: Option<Entry>) -> Option<EntryView> {
    match entry {
        Some(e) => Some(e@),
        None => None,
    }
}

/// A message of level `INFO`.
pub open spec fn info(message: Seq<char>) -> EntryView {
    EntryView { level: Level::Info, message }
}

/// A message of level `ERROR`.
pub open spec fn error(message: Seq<char>) -> EntryView {
    EntryView { level: Level::Error, message }
}

/// What a file in the queue is doing.
#[derive(Clone, Copy, Debug, PartialEq, Eq, Structural)]
pub enum QueueState {
    Processing,
    Completed,
    Failed,
}

impl QueueState {
    pub open spec fn text(self) -> Seq<char> {
        match self {
            QueueState::Processing => "processing"@,
            QueueState::Completed => "completed"@,
            QueueState::Failed => "failed"@,
        }
    }

    /// The name of the state.
    pub fn name(&self) -> (text: &'static str)
        ensures
            text@ == self.text(),
    {
        match self {
            QueueState::Processing => "processing",
            QueueState::Completed => "completed",
            QueueState::Failed => "failed",
        }
    }
}

/// A report on the queue for the window.
pub struct QueueProgress {
    pub state: QueueState,
    pub file: String,
    pub status: String,
    pub progress: u8,
    pub queued: usize,
    pub processed: usize,
    /// The lifetime total, where the report closes a job.
    pub total: Option<u64>,
}

/// A report on the queue for the window.
pub struct QueueProgressView {
    pub state: QueueState,
    pub file: Seq<char>,
    pub status: Seq<char>,
    pub progress: u8,
    pub queued: usize,
    pub processed: usize,
    pub total: Option<u64>,
}

impl View for QueueProgress {
    type V = QueueProgressView;

    open spec fn view(&self) -> QueueProgressView {
        QueueProgressView {
            state: self.state,
            file: self.file@,
            status: self.status@,
            progress: self.progress,
            queued: self.queued,
            processed: self.processed,
            total: self.total,
        }
    }
}

/// The report while a job is running.
pub fn job_report(job: &Job, status: &str, pct: u8) -> (r: QueueProgress)
    ensures
        r@ == (QueueProgressView {
            state: QueueState::Processing,
            file: job.filename@,
            status: status@,
            progress: pct,
            queued: job.pending,
            processed: job.processed,
            total: None,
        }),
{
    QueueProgress {
        state: QueueState::Processing,
        file: job.filename.as_str().to_string(),
        status: status.to_string(),
        progress: pct,
        queued: job.pending,
        processed: job.processed,
        total: None,
    }
}

/// The message at the start of a job. `size` is the size of the file as a text.
pub fn start_entry(filename: &str, size: &str) -> (e: Entry)
    ensures
        e@ == info("开始处理: "@ + filename@ + " ("@ + size@ + ")"@),
{
    let mut m = chars_of("开始处理: ");
    append_str(&mut m, filename);
    append_str(&mut m, " (");
    append_str(&mut m, size);
    append_str(&mut m, ")");
    Entry { level: Level::Info, message: string_of(&m) }
}

/// The steps of a job.
#[derive(Clone, Copy, Debug, PartialEq, Eq, Structural)]
pub enum Step {
    Decrypt,
    Cover,
    Lyrics,
    Trim,
    Shred,
    Done,
    Failed,
}

/// Which of the optional steps a job takes.
#[derive(Clone, Copy, Debug, PartialEq, Eq, Structural)]
pub struct Options {
    pub embed_lrc: bool,
    pub minimal_metadata: bool,
    pub shred_mode: bool,
}

/// What became of a cover or of lyrics.
#[derive(Clone, Copy, Debug, PartialEq, Eq, Structural)]
pub enum Embedding {
    /// So many bytes were written.
    Written(usize),
    Failed,
    /// There was nothing to write.
    Missing,
}

/// What became of a step.
pub enum Event {
    /// The name of the file that was written, or why there is none.
    Decrypted(Result<String, String>),
    Cover(Embedding),
    Lyrics(Embedding),
    Trimmed(bool),
    /// Whether the file and its lyrics could be deleted.
    Deleted { ncm: bool, lrc: bool },
}

/// Whether the event is about the step.
pub open spec fn answers(step: Step, event: Event) -> bool {
    match event {
        Event::Decrypted(_) => step == Step::Decrypt,
        Event::Cover(_) => step == Step::Cover,
        Event::Lyrics(_) => step == Step::Lyrics,
        Event::Trimmed(_) => step == Step::Trim,
        Event::Deleted { .. } => step == Step::Shred,
    }
}

/// What the window shows while the step is taken: a status, and how far the job
/// is in percent. Decrypting reports for itself.
pub open spec fn status_of(step: Step) -> Option<(Seq<char>, u8)> {
    match step {
        Step::Cover => Some(("写入封面"@, 92)),
        Step::Lyrics => Some(("写入歌词"@, 95)),
        Step::Trim => Some(("整理元数据"@, 97)),
        Step::Shred => Some(("删除原始文件"@, 99)),
        _ => None,
    }
}

/// What the window shows while the step is taken.
pub fn step_status(step: Step) -> (s: Option<(&'static str, u8)>)
    ensures
        match s {
            Some((text, pct)) => status_of(step) == Some((text@, pct)),
            None => status_of(step) is None,
        },
{
    match step {
        Step::Cover => Some(("写入封面", 92)),
        Step::Lyrics => Some(("写入歌词", 95)),
        Step::Trim => Some(("整理元数据", 97)),
        Step::Shred => Some(("删除原始文件", 99)),
        _ => None,
    }
}

/// The first of the optional steps that the job takes, from lyrics on.
pub open spec fn from_lyrics(options: Options) -> Step {
    if options.embed_lrc {
        Step::Lyrics
    } else {
        from_trim(options)
    }
}

/// The first of the optional steps that the job takes, from trimming on.
pub open spec fn from_trim(options: Options) -> Step {
    if options.minimal_metadata {
        Step::Trim
    } else {
        from_shred(options)
    }
}

/// The last step of the job, if it takes it.
pub open spec fn from_shred(options: Options) -> Step {
    if options.shred_mode {
        Step::Shred
    } else {
        Step::Done
    }
}

/// The step after an event. Only a file that cannot be decrypted ends the job
/// early.
pub open spec fn following(event: Event, options: Options) -> Step {
    match event {
        Event::Decrypted(Ok(_)) => Step::Cover,
        Event::Decrypted(Err(_)) => Step::Failed,
        Event::Cover(_) => from_lyrics(options),
        Event::Lyrics(_) => from_trim(options),
        Event::Trimmed(_) => from_shred(options),
        Event::Deleted { .. } => Step::Done,
    }
}

/// The message about an event. A failed decryption is reported by whoever runs
/// the job.
pub open spec fn entry_of(event: Event, filename: Seq<char>) -> Option<EntryView> {
    match event {
        Event::Decrypted(Ok(output)) => Some(
            info("解密完成: "@ + filename + " → "@ + output@),
        ),
        Event::Decrypted(Err(_)) => None,
        Event::Cover(Embedding::Written(n)) => Some(
            info("写入封面: "@ + decimal(n as nat) + " 字节"@),
        ),
        Event::Cover(Embedding::Failed) => Some(error("写入封面失败"@)),
        Event::Cover(Embedding::Missing) => Some(info("该文件不包含封面，跳过写入封面"@)),
        Event::Lyrics(Embedding::Written(n)) => Some(
            info("写入歌词: "@ + decimal(n as nat) + " 字节"@),
        ),
        Event::Lyrics(Embedding::Failed) => Some(error("写入歌词失败"@)),
        Event::Lyrics(Embedding::Missing) => Some(info("未发现同名 LRC 文件，跳过写入歌词"@)),
        Event::Trimmed(true) => Some(info("极简模式: 已精简元数据"@)),
        Event::Trimmed(false) => Some(error("极简模式处理失败"@)),
        Event::Deleted { ncm, lrc } => Some(
            EntryView {
                level: if ncm {
                    Level::Info
                } else {
                    Level::Error
                },
                message: "删除原始文件: NCM="@ + (if ncm {
                    "成功"@
                } else {
                    "失败"@
                }) + " LRC="@ + (if lrc {
                    "成功"@
                } else {
                    "无或失败"@
                }),
            },
        ),
    }
}

fn size_message(front: &str, n: usize) -> (m: String)
    ensures
        m@ == front@ + decimal(n as nat) + " 字节"@,
{
    let mut m = chars_of(front);
    push_number(&mut m, n as u64);
    append_str(&mut m, " 字节");
    string_of(&m)
}

fn plain_entry(level: Level, message: &str) -> (e: Entry)
    ensures
        e@ == (EntryView { level, message: message@ }),
{
    Entry { level, message: message.to_string() }
}

fn event_entry(event: &Event, filename: &str) -> (entry: Option<Entry>)
    ensures
        entry_view(entry) == entry_of(*event, filename@),
{
    match event {
        Event::Decrypted(Ok(output)) => {
            let mut m = chars_of("解密完成: ");
            append_str(&mut m, filename);
            append_str(&mut m, " → ");
            append_str(&mut m, output);
            Some(Entry { level: Level::Info, message: string_of(&m) })
        },
        Event::Decrypted(Err(_)) => None,
        Event::Cover(Embedding::Written(n)) => Some(
            Entry { level: Level::Info, message: size_message("写入封面: ", *n) },
        ),
        Event::Cover(Embedding::Failed) => Some(plain_entry(Level::Error, "写入封面失败")),
        Event::Cover(Embedding::Missing) => Some(
            plain_entry(Level::Info, "该文件不包含封面，跳过写入封面"),
        ),
        Event::Lyrics(Embedding::Written(n)) => Some(
            Entry { level: Level::Info, message: size_message("写入歌词: ", *n) },
        ),
        Event::Lyrics(Embedding::Failed) => Some(plain_entry(Level::Error, "写入歌词失败")),
        Event::Lyrics(Embedding::Missing) => Some(
            plain_entry(Level::Info, "未发现同名 LRC 文件，跳过写入歌词"),
        ),
        Event::Trimmed(ok) => if *ok {
            Some(plain_entry(Level::Info, "极简模式: 已精简元数据"))
        } else {
            Some(plain_entry(Level::Error, "极简模式处理失败"))
        },
        Event::Deleted { ncm, lrc } => {
            let mut m = chars_of("删除原始文件: NCM=");
            append_str(
                &mut m,
                if *ncm {
                    "成功"
                } else {
                    "失败"
                },
            );
            append_str(&mut m, " LRC=");
            append_str(
                &mut m,
                if *lrc {
                    "成功"
                } else {
                    "无或失败"
                },
            );
            let level = if *ncm {
                Level::Info
            } else {
                Level::Error
            };
            Some(Entry { level, message: string_of(&m) })
        },
    }
}

/// Takes up what became of a step: the step that follows, and the message for
/// the log.
pub fn process_job(step: Step, event: &Event, options: Options, job: &Job) -> (next: (
    Step,
    Option<Entry>,
))
    requires
        answers(step, *event),
    ensures
        next.0 == following(*event, options),
        entry_view(next.1) == entry_of(*event, job.filename@),
{
    let entry = event_entry(event, &job.filename);
    let after_trim = if options.shred_mode {
        Step::Shred
    } else {
        Step::Done
    };
    let after_lyrics = if options.minimal_metadata {
        Step::Trim
    } else {
        after_trim
    };
    let after_cover = if options.embed_lrc {
        Step::Lyrics
    } else {
        after_lyrics
    };
    let next = match event {
        Event::Decrypted(Ok(_)) => Step::Cover,
        Event::Decrypted(Err(_)) => Step::Failed,
        Event::Cover(_) => after_cover,
        Event::Lyrics(_) => after_lyrics,
        Event::Trimmed(_) => after_trim,
        Event::Deleted { .. } => Step::Done,
    };
    (next, entry)
}

/// The audio with its cover, or why it cannot be put in.
pub open spec fn with_cover(kind: AudioKind, audio: Seq<u8>, cover: Seq<u8>) -> Result<
    Seq<u8>,
    FlacError,
> {
    match kind {
        AudioKind::Mp3 => Ok(with_frame(audio, apic(), cover_body(cover))),
        AudioKind::Flac => if !is_flac(audio) {
            Err(FlacError::NotFlac)
        } else {
            match last_block(audio, 4) {
                Ok(h) => Ok(with_block(audio, h, 6, picture_payload(cover))),
                Err(e) => Err(e),
            }
        },
    }
}

/// Puts the cover into the audio. With an error the audio stays as it was.
pub fn embed_cover(kind: AudioKind, audio: Vec<u8>, cover: &[u8]) -> (out: (
    Vec<u8>,
    Result<(), FlacError>,
))
    requires
        kind == AudioKind::Mp3 ==> tag_fits(audio@),
    ensures
        match (with_cover(kind, audio@, cover@), out.1) {
            (Ok(new), Ok(_)) => out.0@ == new,
            (Err(e), Err(f)) => e == f && out.0@ == audio@,
            _ => false,
        },
        kind == AudioKind::Mp3 ==> tag_fits(out.0@),
{
    match kind {
        AudioKind::Mp3 => (append_id3_cover(audio, cover), Ok(())),
        AudioKind::Flac => {
            let mut data = audio;
            let done = append_flac_cover(&mut data, cover);
            (data, done)
        },
    }
}

/// The audio with its lyrics, or why they cannot be put in. Empty lyrics leave a
/// FLAC stream as it is.
pub open spec fn with_lyrics(kind: AudioKind, audio: Seq<u8>, lyrics: Seq<u8>) -> Result<
    Seq<u8>,
    FlacError,
> {
    match kind {
        AudioKind::Mp3 => Ok(with_frame(audio, txxx(), lyrics_body(lossy_text(lyrics)))),
        AudioKind::Flac => if lyrics.len() == 0 {
            Ok(audio)
        } else {
            with_entries(audio, seq![lyrics_entry(lossy_text(lyrics))])
        },
    }
}

/// Puts converted lyrics into the audio. With an error the audio stays as it was.
pub fn embed_lyrics(kind: AudioKind, audio: Vec<u8>, lyrics: &[u8]) -> (out: (
    Vec<u8>,
    Result<(), FlacError>,
))
    requires
        kind == AudioKind::Mp3 ==> tag_fits(audio@),
        kind == AudioKind::Flac && lyrics@.len() > 0 ==> comments_complete(audio@),
    ensures
        match (with_lyrics(kind, audio@, lyrics@), out.1) {
            (Ok(new), Ok(_)) => out.0@ == new,
            (Err(e), Err(f)) => e == f && out.0@ == audio@,
            _ => false,
        },
        kind == AudioKind::Mp3 ==> tag_fits(out.0@),
{
    match kind {
        AudioKind::Mp3 => (append_id3_lyrics(audio, lyrics), Ok(())),
        AudioKind::Flac => {
            let mut data = audio;
            let done = append_flac_lyrics(&mut data, lyrics);
            (data, done)
        },
    }
}

/// The audio with trimmed tags, or why they cannot be trimmed. Audio without
/// tags stays as it is.
pub open spec fn with_trimmed_tags(kind: AudioKind, audio: Seq<u8>) -> Result<Seq<u8>, FlacError> {
    match kind {
        AudioKind::Mp3 => Ok(
            if has_tag(audio) && tag_end(audio) <= audio.len() {
                trimmed_tag(audio)
            } else {
                audio
            },
        ),
        AudioKind::Flac => if !is_flac(audio) {
            Err(FlacError::NotFlac)
        } else {
            match comment_block(audio, 4) {
                Err(e) => Err(e),
                Ok(None) => Ok(audio),
                Ok(Some(h)) => Ok(
                    with_comments(audio, h, essential(comments_of(payload_at(audio, h)))),
                ),
            }
        },
    }
}

/// Trims the tags of the audio. With an error the audio stays as it was.
pub fn trim_tags(kind: AudioKind, audio: Vec<u8>) -> (out: (Vec<u8>, Result<(), FlacError>))
    requires
        kind == AudioKind::Flac ==> comments_readable(audio@),
    ensures
        match (with_trimmed_tags(kind, audio@), out.1) {
            (Ok(new), Ok(_)) => out.0@ == new,
            (Err(e), Err(f)) => e == f && out.0@ == audio@,
            _ => false,
        },
{
    match kind {
        AudioKind::Mp3 => match minimal_id3(&audio) {
            Some(new) => (new, Ok(())),
            None => (audio, Ok(())),
        },
        AudioKind::Flac => match minimal_flac(&audio) {
            Ok(Some(new)) => (new, Ok(())),
            Ok(None) => (audio, Ok(())),
            Err(e) => (audio, Err(e)),
        },
    }
}

/// The place of a step in the order of a job.
pub open spec fn rank(step: Step) -> int {
    match step {
        Step::Decrypt => 0,
        Step::Cover => 1,
        Step::Lyrics => 2,
        Step::Trim => 3,
        Step::Shred => 4,
        Step::Done => 5,
        Step::Failed => 5,
    }
}

/// A job always moves on, through the steps in their order, and takes an
/// optional step only if it was asked for.
pub proof fn law_steps_are_in_order(step: Step, event: Event, options: Options)
    requires
        answers(step, event),
    ensures
        rank(following(event, options)) > rank(step),
        following(event, options) == Step::Lyrics ==> options.embed_lrc,
        following(event, options) == Step::Trim ==> options.minimal_metadata,
        following(event, options) == Step::Shred ==> options.shred_mode,
{
}

/// The steps that a decrypted file goes through, from a step on, whatever
/// becomes of each of them.
pub open spec fn rest_of(step: Step, options: Options) -> Seq<Step>
    decreases 5 - rank(step),
{
    match step {
        Step::Decrypt => seq![step] + rest_of(Step::Cover, options),
        Step::Cover => seq![step] + rest_of(from_lyrics(options), options),
        Step::Lyrics => seq![step] + rest_of(from_trim(options), options),
        Step::Trim => seq![step] + rest_of(from_shred(options), options),
        Step::Shred => seq![step],
        _ => Seq::empty(),
    }
}

/// Nothing that goes wrong behind the decryption stops a job: the step that
/// follows does not depend on what became of the one before.
pub proof fn law_later_failures_do_not_stop_a_job(
    step: Step,
    one: Event,
    other: Event,
    options: Options,
)
    requires
        step != Step::Decrypt,
        answers(step, one),
        answers(step, other),
    ensures
        following(one, options) == following(other, options),
        following(one, options) != Step::Failed,
{
}

/// The input is deleted exactly when that was asked for, and as the very last
/// step of a file that was decrypted.
pub proof fn law_input_is_deleted_last(options: Options)
    ensures
        rest_of(Step::Decrypt, options).contains(Step::Shred) <==> options.shred_mode,
        options.shred_mode ==> rest_of(Step::Decrypt, options).last() == Step::Shred,
        forall|event: Event|
            event matches Event::Decrypted(Err(_)) ==> #[trigger] following(event, options)
                == Step::Failed,
{
    reveal_with_fuel(rest_of, 7);
    let all = rest_of(Step::Decrypt, options);
    if options.shred_mode {
        assert(all[all.len() - 1] == Step::Shred);
    }
}

} // verus!
