//! Paths as text.

use vstd::prelude::*;
use vstd::slice::slice_subrange;
use crate::bytes::{first_index, lemma_first_index, lemma_first_index_props};
use crate::text::{append_chars, append_str, chars_of, find_char, string_of};

verus! {

/// Whether `c` separates the parts of a path, where `sep` is the platform's own
/// separator. A slash always does.
pub open spec fn separates(c: char, sep: char) -> bool {
    c == sep || c == '/'
}

/// Whether `c` is an ASCII letter.
pub open spec fn is_letter(c: char) -> bool {
    ('A' <= c && c <= 'Z') || ('a' <= c && c <= 'z')
}

/// Whether the path is nothing but a drive, such as `C:`, where paths have
/// drives.
pub open spec fn is_drive(dir: Seq<char>, sep: char) -> bool {
    sep == '\\' && dir.len() == 2 && is_letter(dir[0]) && dir[1] == ':'
}

/// Whether the path is a verbatim one, such as `\\?\C:\x`, where paths have
/// drives. In it only a backslash separates.
pub open spec fn is_verbatim(dir: Seq<char>, sep: char) -> bool {
    sep == '\\' && dir.len() >= 4 && dir[0] == '\\' && dir[1] == '\\' && dir[2] == '?' && dir[3]
        == '\\'
}

/// The length of the prefix of a verbatim path: a server and its share, a drive,
/// or the first part of any other path.
pub open spec fn prefix_len(dir: Seq<char>) -> int {
    if dir.len() >= 8 && dir[4] == 'U' && dir[5] == 'N' && dir[6] == 'C' && separates(dir[7], '\\') {
        let names = dir.skip(8);
        let server = first_index(names, '\\');
        if server == names.len() {
            8 + server
        } else {
            let share = first_index(names.skip(server + 1), '\\');
            8 + server + if share > 0 {
                1 + share
            } else {
                0
            }
        }
    } else if dir.len() >= 6 && is_letter(dir[4]) && dir[5] == ':' && (dir.len() == 6 || separates(
        dir[6],
        '\\',
    )) {
        6
    } else {
        4 + first_index(dir.skip(4), '\\')
    }
}

/// The parts of what follows the prefix, each behind one backslash. Empty parts
/// are dropped.
pub open spec fn tidied(s: Seq<char>) -> Seq<char>
    decreases s.len(),
    via tidied_decreases
{
    if s.len() == 0 {
        Seq::empty()
    } else {
        let k = first_index(s, '\\');
        let here = if k > 0 {
            seq!['\\'] + s.take(k)
        } else {
            Seq::empty()
        };
        if k < s.len() {
            here + tidied(s.skip(k + 1))
        } else {
            here
        }
    }
}

#[via_fn]
proof fn tidied_decreases(s: Seq<char>) {
    lemma_first_index_props(s, '\\');
}

/// What follows the prefix, without a slash that stands for the root.
pub open spec fn behind_root(body: Seq<char>) -> Seq<char> {
    if body.len() > 0 && body[0] == '/' {
        body.skip(1)
    } else {
        body
    }
}

/// A verbatim path as it is written when something is added to it.
pub open spec fn rewritten(dir: Seq<char>) -> Seq<char> {
    let n = prefix_len(dir);
    dir.take(n) + tidied(behind_root(dir.skip(n)))
}

/// The path of `name` in the directory `dir`. The name is a plain file name.
///
/// A path that is only a drive stands for the current directory of that drive,
/// so no separator follows it. A verbatim path is rewritten part by part.
pub open spec fn path_in(dir: Seq<char>, name: Seq<char>, sep: char) -> Seq<char> {
    if is_verbatim(dir, sep) {
        rewritten(dir).push(sep) + name
    } else if dir.len() == 0 || separates(dir.last(), sep) || is_drive(dir, sep) {
        dir + name
    } else {
        dir.push(sep) + name
    }
}

fn opens_verbatim(dir: &[char], sep: char) -> (yes: bool)
    ensures
        yes == is_verbatim(dir@, sep),
{
    sep == '\\' && dir.len() >= 4 && dir[0] == '\\' && dir[1] == '\\' && dir[2] == '?' && dir[3]
        == '\\'
}

fn letter(c: char) -> (yes: bool)
    ensures
        yes == is_letter(c),
{
    ('A' <= c && c <= 'Z') || ('a' <= c && c <= 'z')
}

fn separator(c: char) -> (yes: bool)
    ensures
        yes == separates(c, '\\'),
{
    c == '\\' || c == '/'
}

fn find_prefix(dir: &[char]) -> (n: usize)
    requires
        dir@.len() >= 4,
    ensures
        n == prefix_len(dir@),
        4 <= n <= dir@.len(),
{
    let len = dir.len();
    if len >= 8 && dir[4] == 'U' && dir[5] == 'N' && dir[6] == 'C' && separator(dir[7]) {
        let names = slice_subrange(dir, 8, len);
        assert(names@ =~= dir@.skip(8));
        let server = find_char(names, '\\');
        if server == names.len() {
            return 8 + server;
        }
        let rest = slice_subrange(names, server + 1, names.len());
        assert(rest@ =~= names@.skip(server + 1));
        let share = find_char(rest, '\\');
        if share > 0 {
            8 + server + 1 + share
        } else {
            8 + server
        }
    } else if len >= 6 && letter(dir[4]) && dir[5] == ':' && (len == 6 || separator(dir[6])) {
        6
    } else {
        let rest = slice_subrange(dir, 4, len);
        assert(rest@ =~= dir@.skip(4));
        4 + find_char(rest, '\\')
    }
}

fn push_tidied(out: &mut Vec<char>, s: &[char])
    ensures
        final(out)@ == old(out)@ + tidied(s@),
{
    let ghost all = out@ + tidied(s@);
    let mut from: usize = 0;
    assert(s@.skip(0) =~= s@);
    while from < s.len()
        invariant
            from <= s@.len(),
            out@ + tidied(s@.skip(from as int)) == all,
        decreases s.len() - from,
    {
        let rest = slice_subrange(s, from, s.len());
        assert(rest@ =~= s@.skip(from as int));
        let ghost before = out@;
        let k = find_char(rest, '\\');
        let ghost here = if k > 0 {
            seq!['\\'] + rest@.take(k as int)
        } else {
            Seq::empty()
        };
        if k > 0 {
            out.push('\\');
            let part = slice_subrange(rest, 0, k);
            assert(part@ =~= rest@.take(k as int));
            append_chars(out, part);
        }
        assert(out@ =~= before + here);
        if k < rest.len() {
            from = from + k + 1;
            assert(s@.skip(from as int) =~= rest@.skip(k + 1));
            assert(before + (here + tidied(rest@.skip(k + 1))) =~= out@ + tidied(rest@.skip(k + 1)));
        } else {
            from = s.len();
            assert(tidied(s@.skip(from as int)) =~= Seq::<char>::empty());
            assert(out@ + tidied(s@.skip(from as int)) =~= before + here);
        }
    }
    assert(tidied(s@.skip(from as int)) =~= Seq::<char>::empty());
    assert(out@ =~= all);
}

/// The path of `name`, a plain file name, in the directory `dir`.
pub(crate) fn join_path(dir: &str, name: &str, sep: char) -> (path: String)
    ensures
        path@ == path_in(dir@, name@, sep),
{
    let mut chars = chars_of(dir);
    let len = chars.len();
    if opens_verbatim(&chars, sep) {
        let n = find_prefix(&chars);
        let mut out: Vec<char> = Vec::new();
        append_chars(&mut out, slice_subrange(&chars, 0, n));
        assert(out@ =~= dir@.take(n as int));
        let from = if n < len && chars[n] == '/' {
            n + 1
        } else {
            n
        };
        let body = slice_subrange(&chars, from, len);
        assert(body@ =~= behind_root(dir@.skip(n as int)));
        push_tidied(&mut out, body);
        out.push(sep);
        append_str(&mut out, name);
        return string_of(&out);
    }
    if len > 0 {
        let last = chars[len - 1];
        let drive = sep == '\\' && len == 2 && letter(chars[0]) && last == ':';
        if last != sep && last != '/' && !drive {
            chars.push(sep);
        }
    }
    append_str(&mut chars, name);
    string_of(&chars)
}

/// A file in a directory: the directory, one separator, and the file. None is added
/// where the directory is empty, ends with one, or is only a drive.
pub proof fn law_file_in_a_directory(dir: Seq<char>, name: Seq<char>, sep: char)
    requires
        !(sep == '\\' && dir.len() >= 4 && dir.take(4) == seq!['\\', '\\', '?', '\\']),
    ensures
        ({
            let last = dir.last();
            let letter = 65 <= dir[0] as int <= 90 || 97 <= dir[0] as int <= 122;
            let drive = sep == '\\' && dir.len() == 2 && letter && last == ':';
            path_in(dir, name, sep) == if dir.len() > 0 && last != sep && last != '/' && !drive {
                dir + seq![sep] + name
            } else {
                dir + name
            }
        }),
{
    if sep == '\\' && dir.len() >= 4 {
        let t = dir.take(4);
        assert(t[0] == dir[0] && t[1] == dir[1] && t[2] == dir[2] && t[3] == dir[3]);
        if is_verbatim(dir, sep) {
            assert(t =~= seq!['\\', '\\', '?', '\\']);
        }
    }
    assert(dir.push(sep) =~= dir + seq![sep]);
}

/// The parts of a verbatim path are kept one by one, each behind one backslash, and
/// empty ones are dropped. A slash is no separator.
pub proof fn law_parts_are_kept(part: Seq<char>, rest: Seq<char>)
    requires
        forall|i: int| 0 <= i < part.len() ==> #[trigger] part[i] != '\\',
    ensures
        tidied(part + seq!['\\'] + rest) == tidied(part) + tidied(rest),
        tidied(part) == if part.len() > 0 {
            seq!['\\'] + part
        } else {
            Seq::<char>::empty()
        },
{
    let all = part + seq!['\\'] + rest;
    let n = part.len() as int;
    assert forall|j: int| 0 <= j < n implies all[j] != '\\' by {
        assert(all[j] == part[j]);
    }
    lemma_first_index(all, '\\', n);
    lemma_first_index(part, '\\', n);
    assert(all.take(n) =~= part);
    assert(part.take(n) =~= part);
    assert(all.skip(n + 1) =~= rest);
    assert(Seq::<char>::empty() + tidied(rest) =~= tidied(rest));
    if n == 0 {
        assert(tidied(part) =~= Seq::<char>::empty());
    }
}

/// A verbatim path on a drive: the drive, the parts of the path, and the file.
pub proof fn law_file_on_a_verbatim_drive(drive: char, body: Seq<char>, name: Seq<char>)
    requires
        65 <= drive as int <= 90 || 97 <= drive as int <= 122,
    ensures
        path_in(
            seq!['\\', '\\', '?', '\\', drive, ':', '\\'] + body,
            name,
            '\\',
        ) == seq!['\\', '\\', '?', '\\', drive, ':'] + tidied(body) + seq!['\\'] + name,
{
    let dir = seq!['\\', '\\', '?', '\\', drive, ':', '\\'] + body;
    let front = seq!['\\', '\\', '?', '\\', drive, ':'];
    assert(dir[4] == drive && dir[5] == ':' && dir[6] == '\\');
    assert(dir[7 - 1] == '\\');
    assert(!(dir.len() >= 8 && dir[4] == 'U' && dir[5] == 'N'));
    assert(prefix_len(dir) == 6);
    assert(dir.take(6) =~= front);
    let none = Seq::<char>::empty();
    assert(dir.skip(6) =~= none + seq!['\\'] + body);
    law_parts_are_kept(none, body);
    assert(tidied(none) + tidied(body) =~= tidied(body));
    assert((front + tidied(body)).push('\\') + name =~= front + tidied(body) + seq!['\\'] + name);
}

/// A verbatim path on a server: the server and its share, the parts of the path,
/// and the file.
pub proof fn law_file_on_a_verbatim_share(
    server: Seq<char>,
    share: Seq<char>,
    body: Seq<char>,
    name: Seq<char>,
)
    requires
        forall|i: int| 0 <= i < server.len() ==> #[trigger] server[i] != '\\',
        forall|i: int| 0 <= i < share.len() ==> #[trigger] share[i] != '\\',
        share.len() > 0,
    ensures
        ({
            let root = seq!['\\', '\\', '?', '\\', 'U', 'N', 'C', '\\'] + server + seq!['\\']
                + share;
            path_in(root + seq!['\\'] + body, name, '\\') == root + tidied(body) + seq!['\\'] + name
        }),
{
    let front = seq!['\\', '\\', '?', '\\', 'U', 'N', 'C', '\\'];
    let root = front + server + seq!['\\'] + share;
    let dir = root + seq!['\\'] + body;
    let names = dir.skip(8);
    let n = server.len() as int;
    let m = share.len() as int;
    assert(dir[0] == '\\' && dir[1] == '\\' && dir[2] == '?' && dir[3] == '\\');
    assert(dir[4] == 'U' && dir[5] == 'N' && dir[6] == 'C' && dir[7] == '\\');
    assert(names =~= server + seq!['\\'] + (share + seq!['\\'] + body));
    assert forall|j: int| 0 <= j < n implies names[j] != '\\' by {
        assert(names[j] == server[j]);
    }
    lemma_first_index(names, '\\', n);
    let after = names.skip(n + 1);
    assert(after =~= share + seq!['\\'] + body);
    assert forall|j: int| 0 <= j < m implies after[j] != '\\' by {
        assert(after[j] == share[j]);
    }
    lemma_first_index(after, '\\', m);
    assert(prefix_len(dir) == 9 + n + m);
    assert(dir.take(9 + n + m) =~= root);
    let none = Seq::<char>::empty();
    assert(dir.skip(9 + n + m) =~= none + seq!['\\'] + body);
    law_parts_are_kept(none, body);
    assert(tidied(none) + tidied(body) =~= tidied(body));
    assert((root + tidied(body)).push('\\') + name =~= root + tidied(body) + seq!['\\'] + name);
}

} // verus!
