use nadt::decode::AudioKind;
use nadt::flac::FlacError;
use nadt::pipeline::{
    embed_cover, embed_lyrics, job_report, process_job, start_entry, step_status, trim_tags,
    Embedding, Event, Job, Level, Options, QueueState, Step,
};
use nadt::queue::{
    added_message, begin_job, close_job, enqueue_files, found_message, Begin, Dropped, Queue,
    QueueError,
};

fn job() -> Job {
    Job { input: "/d/a.ncm".to_string(), filename: "a.ncm".to_string(), pending: 2, processed: 5 }
}

fn next(step: Step, event: Event, options: Options) -> (Step, Option<(Level, String)>) {
    let (step, entry) = process_job(step, &event, options, &job());
    (step, entry.map(|e| (e.level, e.message)))
}

fn queue(pending: usize, processed: usize) -> Queue {
    let mut q = Queue::new();
    for i in 0..pending {
        q.enter(format!("{i}"));
    }
    for _ in 0..processed {
        q.finish(true);
    }
    q
}

const ALL: Options = Options { embed_lrc: true, minimal_metadata: true, shred_mode: true };
const NONE: Options = Options { embed_lrc: false, minimal_metadata: false, shred_mode: false };

#[test]
fn a_job_goes_through_its_steps() {
    let info = |m: &str| Some((Level::Info, m.to_string()));
    let ok = Event::Decrypted(Ok("a.mp3".to_string()));
    assert_eq!(next(Step::Decrypt, ok, ALL), (Step::Cover, info("解密完成: a.ncm → a.mp3")));
    let e = Event::Cover(Embedding::Written(12));
    assert_eq!(next(Step::Cover, e, ALL), (Step::Lyrics, info("写入封面: 12 字节")));
    let e = Event::Lyrics(Embedding::Written(0));
    assert_eq!(next(Step::Lyrics, e, ALL), (Step::Trim, info("写入歌词: 0 字节")));
    let e = Event::Trimmed(true);
    assert_eq!(next(Step::Trim, e, ALL), (Step::Shred, info("极简模式: 已精简元数据")));
    let e = Event::Deleted { ncm: true, lrc: false };
    assert_eq!(
        next(Step::Shred, e, ALL),
        (Step::Done, info("删除原始文件: NCM=成功 LRC=无或失败"))
    );
    let e = Event::Cover(Embedding::Missing);
    assert_eq!(next(Step::Cover, e, NONE), (Step::Done, info("该文件不包含封面，跳过写入封面")));
    let e = Event::Lyrics(Embedding::Missing);
    assert_eq!(
        next(Step::Lyrics, e, Options { embed_lrc: true, ..NONE }),
        (Step::Done, info("未发现同名 LRC 文件，跳过写入歌词"))
    );
}

#[test]
fn failures_behind_the_decryption_do_not_stop_a_job() {
    let error = |m: &str| Some((Level::Error, m.to_string()));
    let e = Event::Cover(Embedding::Failed);
    assert_eq!(next(Step::Cover, e, ALL), (Step::Lyrics, error("写入封面失败")));
    let e = Event::Lyrics(Embedding::Failed);
    assert_eq!(next(Step::Lyrics, e, ALL), (Step::Trim, error("写入歌词失败")));
    let e = Event::Trimmed(false);
    assert_eq!(next(Step::Trim, e, ALL), (Step::Shred, error("极简模式处理失败")));
    let e = Event::Deleted { ncm: false, lrc: true };
    assert_eq!(
        next(Step::Shred, e, ALL),
        (Step::Done, error("删除原始文件: NCM=失败 LRC=成功"))
    );
    let e = Event::Decrypted(Err("bad".to_string()));
    assert_eq!(next(Step::Decrypt, e, ALL), (Step::Failed, None));
}

#[test]
fn steps_report_their_progress() {
    assert_eq!(step_status(Step::Cover), Some(("写入封面", 92)));
    assert_eq!(step_status(Step::Lyrics), Some(("写入歌词", 95)));
    assert_eq!(step_status(Step::Trim), Some(("整理元数据", 97)));
    assert_eq!(step_status(Step::Shred), Some(("删除原始文件", 99)));
    assert_eq!(step_status(Step::Decrypt), None);
    let r = job_report(&job(), "写入封面", 92);
    assert_eq!((r.state.name(), r.file.as_str(), r.status.as_str()), ("processing", "a.ncm", "写入封面"));
    assert_eq!((r.progress, r.queued, r.processed, r.total), (92, 2, 5, None));
    let e = start_entry("a.ncm", "1.00 MB");
    assert_eq!((e.level.name(), e.message.as_str()), ("INFO", "开始处理: a.ncm (1.00 MB)"));
}

#[test]
fn covers_and_lyrics_survive_trimming() {
    let mp3 = b"ID3\x03\x00\x00\x00\x00\x00\x00audio".to_vec();
    let (data, r) = embed_cover(AudioKind::Mp3, mp3, b"jpg");
    assert!(r.is_ok());
    let (data, r) = embed_lyrics(AudioKind::Mp3, data, b"words");
    assert!(r.is_ok());
    let (trimmed, r) = trim_tags(AudioKind::Mp3, data.clone());
    assert!(r.is_ok());
    assert_eq!(trimmed, data);
    assert!(data.windows(4).any(|w| w == b"APIC") && data.windows(4).any(|w| w == b"TXXX"));

    let flac = b"fLaC\x80\x00\x00\x00audio".to_vec();
    let (data, r) = embed_cover(AudioKind::Flac, flac, b"jpg");
    assert!(r.is_ok());
    let (data, r) = embed_lyrics(AudioKind::Flac, data, b"words");
    assert!(r.is_ok());
    let (trimmed, r) = trim_tags(AudioKind::Flac, data.clone());
    assert!(r.is_ok());
    assert_eq!(trimmed, data);
    assert!(data.windows(12).any(|w| w == b"LYRICS=words") && data.ends_with(b"audio"));
}

#[test]
fn audio_that_cannot_be_tagged_stays() {
    let noise = b"noise".to_vec();
    assert_eq!(
        embed_cover(AudioKind::Flac, noise.clone(), b"x"),
        (noise.clone(), Err(FlacError::NotFlac))
    );
    assert_eq!(
        embed_lyrics(AudioKind::Flac, noise.clone(), b"x"),
        (noise.clone(), Err(FlacError::NotFlac))
    );
    assert_eq!(trim_tags(AudioKind::Flac, noise.clone()), (noise.clone(), Err(FlacError::NotFlac)));
    assert_eq!(trim_tags(AudioKind::Mp3, noise.clone()), (noise, Ok(())));
}

#[test]
fn the_queue_counts() {
    let mut q = Queue::new();
    assert_eq!((q.enter("a".to_string()), q.enter("b".to_string())), (1, 2));
    assert_eq!(q.leave().as_deref(), Some("a"));
    assert_eq!(q.finish(true), 1);
    assert_eq!(q.enter("c".to_string()), 2);
    assert_eq!(q.leave().as_deref(), Some("b"));
    assert_eq!(q.finish(false), 1);
    assert_eq!((q.pending(), q.processed()), (1, 1));
    assert_eq!(q.drop_waiting(), 1);
    assert_eq!(q.leave(), None);
    assert_eq!((q.pending(), q.processed()), (0, 1));
    assert_eq!(found_message("a.ncm", 3), "新文件加入队列: a.ncm (排队 3)");
    assert_eq!(added_message("a.ncm", 10), "手动添加: a.ncm (排队 10)");
}

#[test]
fn only_files_to_decode_are_queued() {
    let d = |path: &str, ext: Option<&str>, is_file: bool| Dropped {
        path: path.to_string(),
        extension: ext.map(|e| e.to_string()),
        is_file,
    };
    let list = vec![
        d("a.ncm", Some("ncm"), true),
        d("a.lrc", Some("lrc"), true),
        d("dir.ncm", Some("ncm"), false),
        d("b.NCM", Some("NCM"), true),
        d("c", None, true),
    ];
    assert_eq!(enqueue_files(&list, true), Ok(vec!["a.ncm".to_string(), "b.NCM".to_string()]));
    assert_eq!(enqueue_files(&list, false), Err(QueueError::NotReady));
    assert_eq!(enqueue_files(&list[1..3].iter().map(|x| d(&x.path, x.extension.as_deref(), x.is_file)).collect(), true), Err(QueueError::NothingToDo));
    assert_eq!(enqueue_files(&Vec::new(), false), Err(QueueError::NothingToDo));
    assert_eq!(QueueError::NothingToDo.message(), "没有可处理的 .ncm 文件");
    assert_eq!(QueueError::NotReady.message(), "队列未就绪");
}

#[test]
fn a_job_begins_or_is_skipped() {
    let mut q = queue(3, 1);
    q.leave();
    match begin_job(&q, "/d/a.ncm".to_string(), "a.ncm".to_string(), "out", true) {
        Begin::Run(job) => {
            assert_eq!((job.input.as_str(), job.filename.as_str()), ("/d/a.ncm", "a.ncm"));
            assert_eq!((job.pending, job.processed), (2, 1));
        }
        Begin::Skip(..) => panic!("skipped"),
    }
    q.leave();
    match begin_job(&q, "/d/a.ncm".to_string(), "a.ncm".to_string(), "out", false) {
        Begin::Skip(entry, report) => {
            assert_eq!(entry.level, Level::Error);
            assert_eq!(entry.message, "输出目录不存在，跳过 a.ncm: out");
            assert_eq!((report.state, report.status.as_str()), (QueueState::Failed, "输出目录不存在"));
            assert_eq!((report.progress, report.queued, report.processed, report.total), (0, 1, 1, None));
        }
        Begin::Run(_) => panic!("run"),
    }
}

#[test]
fn a_job_is_closed() {
    let mut q = queue(3, 1);
    let end = close_job(&mut q, &Ok("a.mp3".to_string()), "a.ncm", true, false, Some(9));
    let toast = end.toast.unwrap();
    assert_eq!((toast.event.as_str(), toast.detail.as_deref(), toast.sound), ("处理完成", Some("a.mp3"), false));
    assert!(end.entry.is_none());
    assert_eq!(end.total, Some(10));
    let r = end.report;
    assert_eq!((r.state.name(), r.status.as_str(), r.progress), ("completed", "已完成", 100));
    assert_eq!((r.queued, r.processed, r.total), (3, 2, Some(10)));

    let end = close_job(&mut q, &Err("bad".to_string()), "a.ncm", true, true, Some(9));
    let toast = end.toast.unwrap();
    assert_eq!((toast.event.as_str(), toast.detail.as_deref(), toast.sound), ("处理失败", Some("a.ncm"), true));
    assert_eq!(end.entry.unwrap().message, "处理失败 a.ncm: bad");
    assert_eq!(end.total, None);
    let r = end.report;
    assert_eq!((r.state.name(), r.status.as_str(), r.progress), ("failed", "失败: bad", 0));
    assert_eq!((r.queued, r.processed, r.total), (3, 2, Some(0)));

    let end = close_job(&mut q, &Ok("x".to_string()), "a.ncm", false, true, Some(u64::MAX));
    assert!(end.toast.is_none());
    assert_eq!(end.total, Some(u64::MAX));
    let end = close_job(&mut q, &Ok("x".to_string()), "a.ncm", false, true, None);
    assert_eq!((end.total, end.report.total), (None, Some(0)));
}
