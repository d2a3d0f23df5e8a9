//! What holds of tags across the operations on them.

use vstd::prelude::*;
use crate::bytes::{be32, be32_at, concat, lemma_be32_read, lemma_concat_cons};
use crate::id3::{
    frame_here, frame_id, frames, has_tag, kept, kept_ids, lemma_with_content_header,
    lemma_with_tag, make_frame, marker, new_header, replaced, syncsafe, tag_body, tag_end, tag_fits,
    tag_size, talb, text_body, tit2, tpe1, trimmed_tag, with_content, with_frame, with_metadata,
    with_tag, without,
};

verus! {

broadcast use crate::bytes::number_lengths;

/// A frame that is as long as its header says and cannot be taken for padding.
pub open spec fn whole_frame(f: Seq<u8>) -> bool {
    f.len() >= 10 && f[0] != 0 && f.len() == 10 + be32_at(f, 4)
}

pub open spec fn all_whole(fs: Seq<Seq<u8>>) -> bool {
    forall|i: int| 0 <= i < fs.len() ==> #[trigger] whole_frame(fs[i])
}

/// The frames whose identifier is `id`.
pub open spec fn named(fs: Seq<Seq<u8>>, id: Seq<u8>) -> Seq<Seq<u8>>
    decreases fs.len(),
{
    if fs.len() == 0 {
        Seq::empty()
    } else if frame_id(fs[0]) == id {
        seq![fs[0]] + named(fs.skip(1), id)
    } else {
        named(fs.skip(1), id)
    }
}

/// The frames in the tag of the data. Data without a tag has none.
pub open spec fn tag_frames(data: Seq<u8>) -> Seq<Seq<u8>> {
    if has_tag(data) {
        frames(tag_body(data))
    } else {
        Seq::empty()
    }
}

/// What follows the tag: all of the data where it has none.
pub open spec fn behind_tag(data: Seq<u8>) -> Seq<u8> {
    if has_tag(data) {
        data.skip(tag_end(data))
    } else {
        data
    }
}

proof fn lemma_cons<T>(x: T, s: Seq<T>)
    ensures
        (seq![x] + s).len() == s.len() + 1,
        (seq![x] + s)[0] == x,
        (seq![x] + s).skip(1) == s,
        forall|i: int| 0 < i <= s.len() ==> (#[trigger] (seq![x] + s)[i]) == s[i - 1],
{
    assert((seq![x] + s).skip(1) =~= s);
}

/// Every frame that is found in a tag is whole.
pub proof fn lemma_frames_whole(body: Seq<u8>)
    ensures
        all_whole(frames(body)),
    decreases body.len(),
{
    if frame_here(body) {
        let n = 10 + be32_at(body, 4);
        lemma_frames_whole(body.skip(n));
        lemma_cons(body.take(n), frames(body.skip(n)));
        assert(be32_at(body.take(n), 4) == be32_at(body, 4));
        assert forall|i: int| 0 <= i < frames(body).len() implies #[trigger] whole_frame(
            frames(body)[i],
        ) by {
            if i > 0 {
                assert(whole_frame(frames(body.skip(n))[i - 1]));
            }
        }
    }
}

/// Frames that are written one after the other are found again.
pub proof fn lemma_frames_concat(fs: Seq<Seq<u8>>)
    requires
        all_whole(fs),
    ensures
        frames(concat(fs)) == fs,
    decreases fs.len(),
{
    if fs.len() == 0 {
        assert(frames(concat(fs)) =~= fs);
    } else {
        let f = fs[0];
        let rest = fs.skip(1);
        assert(whole_frame(f));
        assert forall|i: int| 0 <= i < rest.len() implies #[trigger] whole_frame(rest[i]) by {
            assert(whole_frame(fs[i + 1]));
        }
        lemma_frames_concat(rest);
        let body = concat(fs);
        assert(body == f + concat(rest));
        assert(be32_at(body, 4) == be32_at(f, 4));
        assert(body.take(f.len() as int) =~= f);
        assert(body.skip(f.len() as int) =~= concat(rest));
        assert(frames(body) =~= fs);
    }
}

proof fn lemma_without_whole(fs: Seq<Seq<u8>>, id: Seq<u8>)
    requires
        all_whole(fs),
    ensures
        all_whole(without(fs, id)),
        named(without(fs, id), id) == Seq::<Seq<u8>>::empty(),
        without(without(fs, id), id) == without(fs, id),
    decreases fs.len(),
{
    if fs.len() > 0 {
        let rest = fs.skip(1);
        assert forall|i: int| 0 <= i < rest.len() implies #[trigger] whole_frame(rest[i]) by {
            assert(whole_frame(fs[i + 1]));
        }
        lemma_without_whole(rest, id);
        assert(whole_frame(fs[0]));
        if frame_id(fs[0]) != id {
            lemma_cons(fs[0], without(rest, id));
            assert forall|i: int| 0 <= i < without(fs, id).len() implies #[trigger] whole_frame(
                without(fs, id)[i],
            ) by {
                if i > 0 {
                    assert(whole_frame(without(rest, id)[i - 1]));
                }
            }
        }
    }
}

/// Replacing leaves one frame of that name, and the others in their order.
pub proof fn lemma_replaced(fs: Seq<Seq<u8>>, id: Seq<u8>, frame: Seq<u8>)
    requires
        all_whole(fs),
        whole_frame(frame),
        frame_id(frame) == id,
    ensures
        all_whole(replaced(fs, id, frame)),
        named(replaced(fs, id, frame), id) == seq![frame],
        without(replaced(fs, id, frame), id) == without(fs, id),
        replaced(replaced(fs, id, frame), id, frame) == replaced(fs, id, frame),
    decreases fs.len(),
{
    let none = Seq::<Seq<u8>>::empty();
    if fs.len() == 0 {
        lemma_cons(frame, none);
        assert(seq![frame] + none =~= seq![frame]);
        assert(named(none, id) =~= none);
        assert(named(seq![frame], id) =~= seq![frame]);
        assert(seq![frame].skip(1) =~= none);
        assert(without(none, id) =~= none);
        assert(without(seq![frame], id) =~= none);
        assert(replaced(seq![frame], id, frame) =~= seq![frame]);
    } else {
        let rest = fs.skip(1);
        assert forall|i: int| 0 <= i < rest.len() implies #[trigger] whole_frame(rest[i]) by {
            assert(whole_frame(fs[i + 1]));
        }
        assert(whole_frame(fs[0]));
        lemma_replaced(rest, id, frame);
        lemma_without_whole(rest, id);
        let new = replaced(fs, id, frame);
        if frame_id(fs[0]) == id {
            lemma_cons(frame, without(rest, id));
            assert forall|i: int| 0 <= i < new.len() implies #[trigger] whole_frame(new[i]) by {
                if i > 0 {
                    assert(whole_frame(without(rest, id)[i - 1]));
                }
            }
            assert(named(new, id) =~= seq![frame]);
        } else {
            lemma_cons(fs[0], replaced(rest, id, frame));
            assert forall|i: int| 0 <= i < new.len() implies #[trigger] whole_frame(new[i]) by {
                if i > 0 {
                    assert(whole_frame(replaced(rest, id, frame)[i - 1]));
                }
            }
        }
    }
}

proof fn lemma_make_frame(id: Seq<u8>, body: Seq<u8>)
    requires
        id.len() == 4,
        id[0] != 0,
        body.len() < 4294967296,
    ensures
        whole_frame(make_frame(id, body)),
        frame_id(make_frame(id, body)) == id,
{
    let f = make_frame(id, body);
    lemma_be32_read(body.len() as int);
    assert(be32_at(f, 4) == be32_at(be32(body.len() as int), 0));
    assert(frame_id(f) =~= id);
}

/// The content that the tag of the data has after a frame was inserted.
pub open spec fn new_content(data: Seq<u8>, id: Seq<u8>, body: Seq<u8>) -> Seq<u8> {
    concat(replaced(tag_frames(data), id, make_frame(id, body)))
}

proof fn lemma_concat_bound(fs: Seq<Seq<u8>>, k: int)
    requires
        0 <= k < fs.len(),
    ensures
        fs[k].len() <= concat(fs).len(),
    decreases fs.len(),
{
    if k > 0 {
        lemma_concat_bound(fs.skip(1), k - 1);
    }
}

proof fn lemma_frame_in_content(fs: Seq<Seq<u8>>, id: Seq<u8>, frame: Seq<u8>)
    ensures
        frame.len() <= concat(replaced(fs, id, frame)).len(),
    decreases fs.len(),
{
    let new = replaced(fs, id, frame);
    if fs.len() == 0 || frame_id(fs[0]) == id {
        assert(new[0] == frame);
        lemma_concat_bound(new, 0);
    } else {
        lemma_frame_in_content(fs.skip(1), id, frame);
        lemma_concat_cons(fs[0], replaced(fs.skip(1), id, frame));
    }
}

/// Inserting a frame into a tag replaces, it does not duplicate: the tag then
/// holds exactly one frame of that name, the new one. All other frames keep
/// their bytes and their order, and what follows the tag is untouched. Data
/// without a tag has one afterwards, with that frame alone.
///
/// The size field of a tag holds 28 bits, and a zero byte starts the padding.
#[verifier::rlimit(40)]
pub proof fn law_frame_is_replaced(data: Seq<u8>, id: Seq<u8>, body: Seq<u8>)
    requires
        tag_fits(data),
        id.len() == 4,
        id[0] != 0,
        new_content(data, id, body).len() < 268435456,
    ensures
        ({
            let out = with_frame(data, id, body);
            &&& has_tag(out)
            &&& tag_fits(out)
            &&& tag_frames(out) == replaced(tag_frames(data), id, make_frame(id, body))
            &&& named(tag_frames(out), id) == seq![make_frame(id, body)]
            &&& without(tag_frames(out), id) == without(tag_frames(data), id)
            &&& behind_tag(out) == behind_tag(data)
        }),
{
    let base = with_tag(data);
    lemma_with_tag(data, id, body);
    let fs = tag_frames(data);
    assert(fs == tag_frames(base));
    let frame = make_frame(id, body);
    let content = new_content(data, id, body);
    let out = with_frame(data, id, body);
    lemma_frame_in_content(fs, id, frame);
    lemma_make_frame(id, body);
    lemma_frames_whole(tag_body(base));
    lemma_replaced(fs, id, frame);
    lemma_frames_concat(replaced(fs, id, frame));
    lemma_with_content_header(base, content);
    assert(out == with_content(base, content));
}

/// Inserting the same frame a second time changes nothing.
#[verifier::rlimit(40)]
pub proof fn law_insert_is_idempotent(data: Seq<u8>, id: Seq<u8>, body: Seq<u8>)
    requires
        tag_fits(data),
        id.len() == 4,
        id[0] != 0,
        new_content(data, id, body).len() < 268435456,
    ensures
        with_frame(with_frame(data, id, body), id, body) == with_frame(data, id, body),
{
    let base = with_tag(data);
    lemma_with_tag(data, id, body);
    law_frame_is_replaced(data, id, body);
    lemma_frames_whole(tag_body(base));
    let frame = make_frame(id, body);
    lemma_frame_in_content(tag_frames(data), id, frame);
    lemma_make_frame(id, body);
    lemma_replaced(tag_frames(data), id, frame);
    let out = with_frame(data, id, body);
    let content = new_content(data, id, body);
    assert(new_content(out, id, body) == content);
    lemma_with_content_header(base, content);
    assert(out == with_content(base, content));
    assert(out.take(6) =~= base.take(6));
    assert(with_frame(out, id, body) == with_content(out, content));
    assert(with_content(out, content) =~= with_content(base, content));
}

/// Replacing the frames of one name leaves those of another name alone.
proof fn lemma_named_other(fs: Seq<Seq<u8>>, id: Seq<u8>, frame: Seq<u8>, other: Seq<u8>)
    requires
        frame_id(frame) == id,
        other != id,
    ensures
        named(replaced(fs, id, frame), other) == named(fs, other),
        named(without(fs, id), other) == named(fs, other),
    decreases fs.len(),
{
    let none = Seq::<Seq<u8>>::empty();
    if fs.len() == 0 {
        assert(seq![frame].skip(1) =~= none);
        assert(named(seq![frame], other) =~= named(none, other));
    } else {
        let rest = fs.skip(1);
        lemma_named_other(rest, id, frame, other);
        lemma_cons(frame, without(rest, id));
        lemma_cons(fs[0], replaced(rest, id, frame));
        lemma_cons(fs[0], without(rest, id));
    }
}

proof fn lemma_without_unnamed(fs: Seq<Seq<u8>>, id: Seq<u8>)
    requires
        named(fs, id) == Seq::<Seq<u8>>::empty(),
    ensures
        without(fs, id) == fs,
    decreases fs.len(),
{
    if fs.len() > 0 {
        assert(frame_id(fs[0]) != id);
        lemma_without_unnamed(fs.skip(1), id);
        assert(seq![fs[0]] + fs.skip(1) =~= fs);
    } else {
        assert(without(fs, id) =~= fs);
    }
}

/// Putting a frame where it already is changes nothing.
proof fn lemma_replaced_same(fs: Seq<Seq<u8>>, id: Seq<u8>, frame: Seq<u8>)
    requires
        named(fs, id) == seq![frame],
    ensures
        replaced(fs, id, frame) == fs,
    decreases fs.len(),
{
    assert(fs.len() > 0) by {
        if fs.len() == 0 {
            assert(named(fs, id).len() == 0);
            assert(seq![frame].len() == 1);
        }
    }
    let rest = fs.skip(1);
    assert(seq![fs[0]] + rest =~= fs);
    if frame_id(fs[0]) == id {
        lemma_cons(fs[0], named(rest, id));
        assert(seq![frame].skip(1) =~= Seq::<Seq<u8>>::empty());
        assert(named(fs, id).skip(1) == named(rest, id));
        lemma_without_unnamed(rest, id);
        assert(fs[0] == frame);
    } else {
        lemma_replaced_same(rest, id, frame);
    }
}

/// Data whose tag holds just these frames and none else.
pub open spec fn tag_is(data: Seq<u8>, fs: Seq<Seq<u8>>) -> bool {
    &&& has_tag(data)
    &&& tag_fits(data)
    &&& all_whole(fs)
    &&& tag_frames(data) == fs
    &&& tag_body(data) == concat(fs)
    &&& data.subrange(6, 10) == syncsafe(tag_size(data))
}

#[verifier::rlimit(40)]
proof fn lemma_with_frame_tag_is(data: Seq<u8>, id: Seq<u8>, body: Seq<u8>)
    requires
        tag_fits(data),
        id.len() == 4,
        id[0] != 0,
        new_content(data, id, body).len() < 268435456,
    ensures
        tag_is(
            with_frame(data, id, body),
            replaced(tag_frames(data), id, make_frame(id, body)),
        ),
        named(replaced(tag_frames(data), id, make_frame(id, body)), id) == seq![make_frame(id, body)],
        frame_id(make_frame(id, body)) == id,
        behind_tag(with_frame(data, id, body)) == behind_tag(data),
{
    let base = with_tag(data);
    lemma_with_tag(data, id, body);
    law_frame_is_replaced(data, id, body);
    let frame = make_frame(id, body);
    lemma_frame_in_content(tag_frames(data), id, frame);
    lemma_make_frame(id, body);
    lemma_frames_whole(tag_body(base));
    lemma_replaced(tag_frames(data), id, frame);
    let content = new_content(data, id, body);
    assert(with_frame(data, id, body) == with_content(base, content));
    lemma_content_is_the_body(base, content);
}

proof fn lemma_content_is_the_body(base: Seq<u8>, content: Seq<u8>)
    requires
        has_tag(base),
        tag_fits(base),
        content.len() < 268435456,
    ensures
        ({
            let out = with_content(base, content);
            &&& tag_body(out) == content
            &&& tag_size(out) == content.len()
            &&& out.subrange(6, 10) == syncsafe(content.len() as int)
        }),
{
    lemma_with_content_header(base, content);
    assert(with_content(base, content).subrange(6, 10) =~= syncsafe(content.len() as int));
}

proof fn lemma_with_frame_same(data: Seq<u8>, fs: Seq<Seq<u8>>, id: Seq<u8>, body: Seq<u8>)
    requires
        tag_is(data, fs),
        named(fs, id) == seq![make_frame(id, body)],
    ensures
        with_frame(data, id, body) == data,
{
    lemma_replaced_same(fs, id, make_frame(id, body));
    let body_bytes = tag_body(data);
    reveal(tag_size);
    assert(tag_size(data) >= 0);
    assert(data =~= data.take(6) + data.subrange(6, 10) + body_bytes + data.skip(tag_end(data)));
}

/// Writing title, artist and album leaves exactly one frame of each, with the
/// new value, and writing them a second time changes nothing. What follows the
/// tag is untouched.
#[verifier::rlimit(40)]
pub proof fn law_metadata_is_written_once(
    data: Seq<u8>,
    title: Seq<char>,
    artist: Seq<char>,
    album: Seq<char>,
)
    requires
        tag_fits(data),
        new_content(data, tit2(), text_body(title)).len() < 268435456,
        new_content(
            with_frame(data, tit2(), text_body(title)),
            tpe1(),
            text_body(artist),
        ).len() < 268435456,
        new_content(
            with_frame(with_frame(data, tit2(), text_body(title)), tpe1(), text_body(artist)),
            talb(),
            text_body(album),
        ).len() < 268435456,
    ensures
        ({
            let out = with_metadata(data, title, artist, album);
            &&& named(tag_frames(out), tit2()) == seq![make_frame(tit2(), text_body(title))]
            &&& named(tag_frames(out), tpe1()) == seq![make_frame(tpe1(), text_body(artist))]
            &&& named(tag_frames(out), talb()) == seq![make_frame(talb(), text_body(album))]
            &&& forall|id: Seq<u8>|
                id != tit2() && id != tpe1() && id != talb() ==> #[trigger] named(
                    tag_frames(out),
                    id,
                ) == named(tag_frames(data), id)
            &&& behind_tag(out) == behind_tag(data)
            &&& with_metadata(out, title, artist, album) == out
        }),
{
    let b1 = text_body(title);
    let b2 = text_body(artist);
    let b3 = text_body(album);
    let d1 = with_frame(data, tit2(), b1);
    let d2 = with_frame(d1, tpe1(), b2);
    let d3 = with_frame(d2, talb(), b3);
    assert(tit2() != tpe1()) by {
        assert(tit2()[1] != tpe1()[1]);
    }
    assert(tit2() != talb()) by {
        assert(tit2()[1] != talb()[1]);
    }
    assert(tpe1() != talb()) by {
        assert(tpe1()[1] != talb()[1]);
    }
    lemma_with_frame_tag_is(data, tit2(), b1);
    lemma_with_frame_tag_is(d1, tpe1(), b2);
    lemma_with_frame_tag_is(d2, talb(), b3);
    let f1 = make_frame(tit2(), b1);
    let f2 = make_frame(tpe1(), b2);
    let f3 = make_frame(talb(), b3);
    lemma_named_other(tag_frames(d1), tpe1(), f2, tit2());
    lemma_named_other(tag_frames(d2), talb(), f3, tit2());
    lemma_named_other(tag_frames(d2), talb(), f3, tpe1());
    assert forall|id: Seq<u8>| id != tit2() && id != tpe1() && id != talb() implies #[trigger] named(
        tag_frames(d3),
        id,
    ) == named(tag_frames(data), id) by {
        lemma_named_other(tag_frames(data), tit2(), f1, id);
        lemma_named_other(tag_frames(d1), tpe1(), f2, id);
        lemma_named_other(tag_frames(d2), talb(), f3, id);
    }
    lemma_with_frame_same(d3, tag_frames(d3), tit2(), b1);
    lemma_with_frame_same(d3, tag_frames(d3), tpe1(), b2);
    lemma_with_frame_same(d3, tag_frames(d3), talb(), b3);
}

proof fn lemma_kept(fs: Seq<Seq<u8>>)
    requires
        all_whole(fs),
    ensures
        all_whole(kept(fs)),
        kept(kept(fs)) == kept(fs),
        forall|i: int| 0 <= i < kept(fs).len() ==> kept_ids().contains(#[trigger] frame_id(kept(fs)[i])),
        forall|id: Seq<u8>| kept_ids().contains(id) ==> #[trigger] named(kept(fs), id) == named(fs, id),
    decreases fs.len(),
{
    if fs.len() > 0 {
        let rest = fs.skip(1);
        assert forall|i: int| 0 <= i < rest.len() implies #[trigger] whole_frame(rest[i]) by {
            assert(whole_frame(fs[i + 1]));
        }
        lemma_kept(rest);
        assert(whole_frame(fs[0]));
        if kept_ids().contains(frame_id(fs[0])) {
            lemma_cons(fs[0], kept(rest));
            assert forall|i: int| 0 <= i < kept(fs).len() implies #[trigger] whole_frame(
                kept(fs)[i],
            ) by {
                if i > 0 {
                    assert(whole_frame(kept(rest)[i - 1]));
                }
            }
            assert forall|i: int| 0 <= i < kept(fs).len() implies kept_ids().contains(
                #[trigger] frame_id(kept(fs)[i]),
            ) by {
                if i > 0 {
                    assert(kept_ids().contains(frame_id(kept(rest)[i - 1])));
                }
            }
            assert forall|id: Seq<u8>| kept_ids().contains(id) implies #[trigger] named(
                kept(fs),
                id,
            ) == named(fs, id) by {
                assert(named(kept(rest), id) == named(rest, id));
            }
        } else {
            assert forall|id: Seq<u8>| kept_ids().contains(id) implies #[trigger] named(
                kept(fs),
                id,
            ) == named(fs, id) by {
                assert(named(kept(rest), id) == named(rest, id));
            }
        }
    }
}

/// A trimmed tag holds only title, artist, picture and lyrics frames, every one
/// of them that was there, in the same order. What follows the tag is
/// untouched, and trimming a second time changes nothing.
#[verifier::rlimit(40)]
pub proof fn law_trimming_keeps_the_essentials(data: Seq<u8>)
    requires
        has_tag(data),
        tag_fits(data),
    ensures
        ({
            let out = trimmed_tag(data);
            &&& has_tag(out)
            &&& tag_fits(out)
            &&& tag_frames(out) == kept(tag_frames(data))
            &&& forall|i: int|
                0 <= i < tag_frames(out).len() ==> kept_ids().contains(
                    #[trigger] frame_id(tag_frames(out)[i]),
                )
            &&& forall|id: Seq<u8>|
                kept_ids().contains(id) ==> #[trigger] named(tag_frames(out), id) == named(
                    tag_frames(data),
                    id,
                )
            &&& behind_tag(out) == behind_tag(data)
            &&& trimmed_tag(out) == out
        }),
{
    let fs = tag_frames(data);
    let content = concat(kept(fs));
    let out = trimmed_tag(data);
    lemma_frames_whole(tag_body(data));
    lemma_kept(fs);
    lemma_frames_concat(kept(fs));
    lemma_kept_len(tag_body(data));
    lemma_tag_size_bound(data);
    // The header differs from the old one only in version and flags.
    let head = new_header();
    let base = head + data.skip(6);
    reveal(tag_size);
    assert(base.take(3) =~= marker());
    assert(tag_end(base) == tag_end(data));
    assert(base.skip(tag_end(base)) =~= data.skip(tag_end(data)));
    assert(base.take(6) =~= head);
    assert(out == with_content(base, content));
    lemma_with_content_header(base, content);
    assert(tag_frames(out) == kept(fs));
    assert(trimmed_tag(out) =~= out);
}

proof fn lemma_tag_size_bound(data: Seq<u8>)
    ensures
        0 <= tag_size(data) < 268435456,
{
    reveal(tag_size);
}

/// Trimming never makes the content longer.
proof fn lemma_kept_len(body: Seq<u8>)
    ensures
        concat(kept(frames(body))).len() <= body.len(),
    decreases body.len(),
{
    if frame_here(body) {
        let n = 10 + be32_at(body, 4);
        let rest = body.skip(n);
        lemma_kept_len(rest);
        lemma_cons(body.take(n), frames(rest));
        lemma_concat_cons(body.take(n), kept(frames(rest)));
    }
}

/// Trimming and embedding are independent: a picture, lyrics, a title or an
/// artist that was put in is still there after the tag was trimmed, exactly once.
pub proof fn law_kept_frame_survives_trimming(data: Seq<u8>, id: Seq<u8>, body: Seq<u8>)
    requires
        tag_fits(data),
        kept_ids().contains(id),
        new_content(data, id, body).len() < 268435456,
    ensures
        named(tag_frames(trimmed_tag(with_frame(data, id, body))), id) == seq![make_frame(id, body)],
{
    let ids = kept_ids();
    let k = choose|k: int| 0 <= k < ids.len() && ids[k] == id;
    assert(ids[k].len() == 4 && ids[k][0] != 0);
    law_frame_is_replaced(data, id, body);
    law_trimming_keeps_the_essentials(with_frame(data, id, body));
}

proof fn lemma_replaced_twice(fs: Seq<Seq<u8>>, id: Seq<u8>, one: Seq<u8>, two: Seq<u8>)
    requires
        all_whole(fs),
        frame_id(one) == id,
    ensures
        replaced(replaced(fs, id, one), id, two) == replaced(fs, id, two),
    decreases fs.len(),
{
    let none = Seq::<Seq<u8>>::empty();
    if fs.len() == 0 {
        assert(seq![one].skip(1) =~= none);
        assert(without(none, id) == none);
        assert(seq![two] + none =~= seq![two]);
    } else {
        let rest = fs.skip(1);
        assert forall|i: int| 0 <= i < rest.len() implies #[trigger] whole_frame(rest[i]) by {
            assert(whole_frame(fs[i + 1]));
        }
        if frame_id(fs[0]) == id {
            lemma_without_whole(rest, id);
            lemma_cons(one, without(rest, id));
        } else {
            lemma_replaced_twice(rest, id, one, two);
            lemma_cons(fs[0], replaced(rest, id, one));
        }
    }
}

/// The last write wins: a frame that was inserted leaves no trace once another
/// of the same name is inserted.
#[verifier::rlimit(40)]
pub proof fn law_last_frame_wins(data: Seq<u8>, id: Seq<u8>, one: Seq<u8>, two: Seq<u8>)
    requires
        tag_fits(data),
        id.len() == 4,
        id[0] != 0,
        new_content(data, id, one).len() < 268435456,
    ensures
        with_frame(with_frame(data, id, one), id, two) == with_frame(data, id, two),
{
    let base = with_tag(data);
    lemma_with_tag(data, id, one);
    lemma_with_tag(data, id, two);
    law_frame_is_replaced(data, id, one);
    let fs = tag_frames(data);
    lemma_frames_whole(tag_body(base));
    lemma_frame_in_content(fs, id, make_frame(id, one));
    lemma_make_frame(id, one);
    lemma_replaced_twice(fs, id, make_frame(id, one), make_frame(id, two));
    let out = with_frame(data, id, one);
    let content = new_content(data, id, one);
    lemma_with_content_header(base, content);
    assert(out == with_content(base, content));
    assert(out.take(6) =~= base.take(6));
    assert(with_frame(out, id, two) =~= with_frame(base, id, two));
}

} // verus!
