//! Lyrics: from the download's LRC dialect to plain `[mm:ss.xx] text` lines.

use vstd::prelude::*;
use vstd::slice::slice_subrange;
use vstd::utf8::encode_utf8;
use crate::bytes::first_index;
use crate::json::{json_of, parse_json, trees, Json, Tree};
use crate::text::{
    append_chars, append_str, char_views, chars_of, decode_lossy, digit_value, find_char,
    is_digit, join, joined, keep_digits, lines, lossy_text, number_of, only_digits, parse_number,
    push_two_wide, split_lines, string_of, trim, trimmed, two_wide,
};

verus! {

/// `key: value` with one space on both sides of the colon. An ASCII colon is
/// looked for first, then a full-width one.
pub open spec fn normalised(s: Seq<char>) -> Seq<char> {
    let ascii = first_index(s, ':');
    let wide = first_index(s, '\u{ff1a}');
    if ascii < s.len() {
        trimmed(s.take(ascii)) + " : "@ + trimmed(s.skip(ascii + 1))
    } else if wide < s.len() {
        trimmed(s.take(wide)) + " : "@ + trimmed(s.skip(wide + 1))
    } else {
        s
    }
}

/// Puts one space on both sides of the first colon.
pub fn normalise_meta(s: &str) -> (t: String)
    ensures
        t@ == normalised(s@),
{
    let chars = chars_of(s);
    let mut k = find_char(&chars, ':');
    if k == chars.len() {
        k = find_char(&chars, '\u{ff1a}');
    }
    if k == chars.len() {
        return string_of(&chars);
    }
    let key = slice_subrange(&chars, 0, k);
    let value = slice_subrange(&chars, k + 1, chars.len());
    assert(key@ =~= chars@.take(k as int));
    assert(value@ =~= chars@.skip(k + 1));
    let mut out: Vec<char> = Vec::new();
    append_chars(&mut out, trim(key));
    append_str(&mut out, " : ");
    append_chars(&mut out, trim(value));
    assert(out@ =~= normalised(s@));
    string_of(&out)
}

/// The texts of the parts, one after the other. A part without a text adds
/// nothing.
pub open spec fn parts_text(parts: Seq<Tree>) -> Seq<char>
    decreases parts.len(),
{
    if parts.len() == 0 {
        Seq::empty()
    } else {
        parts_text(parts.drop_last()) + match parts.last().text_field("tx"@) {
            Some(text) => text,
            None => Seq::empty(),
        }
    }
}

/// The text of a meta line: the parts under `c`.
pub open spec fn meta_text(tree: Tree) -> Seq<char> {
    match tree.list_field("c"@) {
        Some(parts) => parts_text(parts),
        None => Seq::empty(),
    }
}

/// The time of a meta line in milliseconds: the number under `t`, else zero.
pub open spec fn meta_time(tree: Tree) -> int {
    match tree.field("t"@) {
        Some(Tree::Number(Some(t))) => t as int,
        _ => 0,
    }
}

/// `t / d`, rounded towards zero.
pub open spec fn quotient(t: int, d: int) -> int {
    if t >= 0 {
        t / d
    } else {
        -((-t) / d)
    }
}

/// What is left of `t` after division by `d`, with the sign of `t`.
pub open spec fn remainder(t: int, d: int) -> int {
    t - d * quotient(t, d)
}

/// `[mm:ss.xx]`.
pub open spec fn stamp(minutes: int, seconds: int, hundredths: int) -> Seq<char> {
    "["@ + two_wide(minutes) + ":"@ + two_wide(seconds) + "."@ + two_wide(hundredths) + "]"@
}

/// The stamp for a time in milliseconds, cut to hundredths.
pub open spec fn time_stamp(t: int) -> Seq<char> {
    stamp(
        quotient(t, 60000),
        quotient(remainder(t, 60000), 1000),
        quotient(remainder(t, 1000), 10),
    )
}

/// The line for a meta line. One without any text gives none.
pub open spec fn meta_output(tree: Tree) -> Option<Seq<char>> {
    let text = meta_text(tree);
    if text.len() == 0 {
        None
    } else {
        Some(time_stamp(meta_time(tree)) + " "@ + normalised(text))
    }
}

fn push_stamp(out: &mut Vec<char>, minutes: i64, seconds: i64, hundredths: i64)
    ensures
        final(out)@ == old(out)@ + stamp(minutes as int, seconds as int, hundredths as int),
{
    let ghost before = out@;
    append_str(out, "[");
    push_two_wide(out, minutes);
    append_str(out, ":");
    push_two_wide(out, seconds);
    append_str(out, ".");
    push_two_wide(out, hundredths);
    append_str(out, "]");
    assert(out@ =~= before + stamp(minutes as int, seconds as int, hundredths as int));
}

fn push_time_stamp(out: &mut Vec<char>, t: i64)
    ensures
        final(out)@ == old(out)@ + time_stamp(t as int),
{
    if t >= 0 {
        push_stamp(out, t / 60000, (t % 60000) / 1000, (t % 1000) / 10);
    } else {
        let m: u64 = if t == i64::MIN {
            9223372036854775808
        } else {
            (-t) as u64
        };
        assert(m == -t);
        let minutes = (m / 60000) as i64;
        let seconds = ((m % 60000) / 1000) as i64;
        let hundredths = ((m % 1000) / 10) as i64;
        assert(quotient(t as int, 60000) == -minutes);
        assert(remainder(t as int, 60000) == -((m % 60000) as int));
        assert(quotient(remainder(t as int, 60000), 1000) == -seconds);
        assert(remainder(t as int, 1000) == -((m % 1000) as int));
        assert(quotient(remainder(t as int, 1000), 10) == -hundredths);
        push_stamp(out, -minutes, -seconds, -hundredths);
    }
}

/// The line for a meta line.
pub fn meta_line(json: &Json) -> (line: Option<String>)
    ensures
        match line {
            Some(s) => meta_output(json@) == Some(s@),
            None => meta_output(json@) is None,
        },
{
    let mut text: Vec<char> = Vec::new();
    if let Some(parts) = json.get_array("c") {
        let ghost all = trees(parts@);
        let mut i: usize = 0;
        assert(text@ =~= parts_text(all.take(0)));
        while i < parts.len()
            invariant
                i <= parts@.len(),
                all == trees(parts@),
                text@ == parts_text(all.take(i as int)),
            decreases parts.len() - i,
        {
            assert(all.take(i + 1).drop_last() =~= all.take(i as int));
            assert(all.take(i + 1).last() == parts@[i as int]@);
            if let Some(part) = parts[i].get_str("tx") {
                append_str(&mut text, part);
            } else {
                assert(text@ + Seq::<char>::empty() =~= text@);
            }
            i += 1;
        }
        assert(all.take(parts@.len() as int) =~= all);
    }
    assert(text@ == meta_text(json@));
    if text.len() == 0 {
        return None;
    }
    let t: i64 = match json.get("t") {
        Some(number) => match number.as_i64() {
            Some(t) => t,
            None => 0,
        },
        None => 0,
    };
    assert(t == meta_time(json@));
    let mut out: Vec<char> = Vec::new();
    push_time_stamp(&mut out, t);
    append_str(&mut out, " ");
    append_str(&mut out, &normalise_meta(&string_of(&text)));
    assert(out@ =~= time_stamp(t as int) + " "@ + normalised(text@));
    Some(string_of(&out))
}

/// The digit at position `i`, zero where the text is shorter.
pub open spec fn digit_at(digits: Seq<char>, i: int) -> int {
    if i < digits.len() {
        digit_value(digits[i])
    } else {
        0
    }
}

/// The hundredths of a second in a fraction: its first two digits. They are
/// cut, not rounded.
pub open spec fn hundredths(fraction: Seq<char>) -> int {
    digit_at(only_digits(fraction), 0) * 10 + digit_at(only_digits(fraction), 1)
}

/// A time stamp as written between the brackets: minutes, seconds and
/// hundredths. `None` where it is none.
pub open spec fn read_stamp(s: Seq<char>) -> Option<(u32, u32, int)> {
    let colon = first_index(s, ':');
    let tail = s.skip(colon + 1);
    let dot = first_index(tail, '.');
    if colon == s.len() {
        None
    } else {
        match (number_of(trimmed(s.take(colon))), number_of(tail.take(dot))) {
            (Some(m), Some(sec)) => Some(
                (
                    m,
                    sec,
                    if dot < tail.len() {
                        hundredths(tail.skip(dot + 1))
                    } else {
                        0
                    },
                ),
            ),
            _ => None,
        }
    }
}

/// The line for a line that is not JSON: a time stamp at its start is brought
/// to two decimals, anything else stays.
pub open spec fn plain_output(line: Seq<char>) -> Seq<char> {
    let rest = line.skip(1);
    let close = first_index(rest, ']');
    if line.len() > 0 && line[0] == '[' && close < rest.len() {
        match read_stamp(rest.take(close)) {
            Some((m, sec, cs)) => stamp(m as int, sec as int, cs) + rest.skip(close + 1),
            None => line,
        }
    } else {
        line
    }
}

/// What is left of a text when only its digits are kept are digits.
pub proof fn lemma_only_digits(s: Seq<char>)
    ensures
        forall|i: int| 0 <= i < only_digits(s).len() ==> is_digit(#[trigger] only_digits(s)[i]),
    decreases s.len(),
{
    if s.len() > 0 {
        let shorter = s.drop_last();
        lemma_only_digits(shorter);
        assert forall|i: int| 0 <= i < only_digits(s).len() implies is_digit(
            #[trigger] only_digits(s)[i],
        ) by {
            if i < only_digits(shorter).len() {
                assert(is_digit(only_digits(shorter)[i]));
            }
        }
    }
}

fn read_hundredths(fraction: &[char]) -> (cs: i64)
    ensures
        cs == hundredths(fraction@),
        0 <= cs <= 99,
{
    let digits = keep_digits(fraction);
    proof {
        lemma_only_digits(fraction@);
    }
    let mut cs: i64 = 0;
    if digits.len() > 0 {
        let c: char = digits[0];
        assert(is_digit(digits@[0]));
        cs = (c as u32 - 48) as i64 * 10;
    }
    if digits.len() > 1 {
        let c: char = digits[1];
        assert(is_digit(digits@[1]));
        cs = cs + (c as u32 - 48) as i64;
    }
    cs
}

fn parse_stamp(s: &[char]) -> (parsed: Option<(u32, u32, i64)>)
    ensures
        match parsed {
            Some((m, sec, cs)) => read_stamp(s@) == Some((m, sec, cs as int)),
            None => read_stamp(s@) is None,
        },
{
    let colon = find_char(s, ':');
    if colon == s.len() {
        return None;
    }
    let head = slice_subrange(s, 0, colon);
    let tail = slice_subrange(s, colon + 1, s.len());
    assert(head@ =~= s@.take(colon as int));
    assert(tail@ =~= s@.skip(colon + 1));
    let dot = find_char(tail, '.');
    let seconds = slice_subrange(tail, 0, dot);
    assert(seconds@ =~= tail@.take(dot as int));
    match (parse_number(trim(head)), parse_number(seconds)) {
        (Some(m), Some(sec)) => {
            let cs = if dot < tail.len() {
                let fraction = slice_subrange(tail, dot + 1, tail.len());
                assert(fraction@ =~= tail@.skip(dot + 1));
                read_hundredths(fraction)
            } else {
                0
            };
            Some((m, sec, cs))
        },
        _ => None,
    }
}

/// The line for a line that is not JSON.
pub fn plain_line(line: &str) -> (out: String)
    ensures
        out@ == plain_output(line@),
{
    let chars = chars_of(line);
    if chars.len() > 0 && chars[0] == '[' {
        let rest = slice_subrange(&chars, 1, chars.len());
        assert(rest@ =~= line@.skip(1));
        let close = find_char(rest, ']');
        if close < rest.len() {
            let inner = slice_subrange(rest, 0, close);
            assert(inner@ =~= rest@.take(close as int));
            if let Some((m, sec, cs)) = parse_stamp(inner) {
                let body = slice_subrange(rest, close + 1, rest.len());
                assert(body@ =~= rest@.skip(close + 1));
                let mut out: Vec<char> = Vec::new();
                push_stamp(&mut out, m as i64, sec as i64, cs);
                append_chars(&mut out, body);
                assert(out@ =~= plain_output(line@));
                return string_of(&out);
            }
        }
    }
    string_of(&chars)
}

/// The line without the byte order marks in front of it.
pub open spec fn without_marks(line: Seq<char>) -> Seq<char>
    decreases line.len(),
{
    if line.len() > 0 && line[0] == '\u{feff}' {
        without_marks(line.skip(1))
    } else {
        line
    }
}

/// The line for one line of the file, if it gives one.
pub open spec fn line_output(line: Seq<char>) -> Option<Seq<char>> {
    let text = trimmed(without_marks(line));
    if text.len() == 0 {
        None
    } else {
        match json_of(text) {
            Some(tree) => meta_output(tree),
            None => Some(plain_output(text)),
        }
    }
}

/// The lines for the lines of a file, in their order.
pub open spec fn all_outputs(list: Seq<Seq<char>>) -> Seq<Seq<char>>
    decreases list.len(),
{
    if list.len() == 0 {
        Seq::empty()
    } else {
        match line_output(list.last()) {
            Some(line) => all_outputs(list.drop_last()).push(line),
            None => all_outputs(list.drop_last()),
        }
    }
}

/// The converted text of a lyrics file.
pub open spec fn converted(text: Seq<char>) -> Seq<char> {
    joined(all_outputs(lines(text)), "\n"@)
}

fn convert_line(line: &[char]) -> (out: Option<String>)
    ensures
        match out {
            Some(s) => line_output(line@) == Some(s@),
            None => line_output(line@) is None,
        },
{
    let mut from: usize = 0;
    assert(line@.skip(0) =~= line@);
    while from < line.len() && line[from] == '\u{feff}'
        invariant
            from <= line@.len(),
            without_marks(line@) == without_marks(line@.skip(from as int)),
        decreases line.len() - from,
    {
        assert(line@.skip(from as int).skip(1) =~= line@.skip(from + 1));
        from += 1;
    }
    let rest = slice_subrange(line, from, line.len());
    assert(rest@ =~= line@.skip(from as int));
    let text = trim(rest);
    if text.len() == 0 {
        return None;
    }
    let text = string_of(text);
    match parse_json(&text) {
        Some(json) => meta_line(&json),
        None => Some(plain_line(&text)),
    }
}

/// Converts the text of a lyrics file, line by line.
pub fn convert_lyrics(text: &str) -> (out: String)
    ensures
        out@ == converted(text@),
{
    let list = split_lines(&chars_of(text));
    let ghost all = char_views(list@);
    let mut outs: Vec<Vec<char>> = Vec::new();
    let mut i: usize = 0;
    assert(char_views(outs@) =~= all_outputs(all.take(0)));
    while i < list.len()
        invariant
            i <= list@.len(),
            all == char_views(list@),
            char_views(outs@) == all_outputs(all.take(i as int)),
        decreases list.len() - i,
    {
        let ghost before = char_views(outs@);
        assert(all.take(i + 1).drop_last() =~= all.take(i as int));
        assert(all.take(i + 1).last() == list@[i as int]@);
        if let Some(line) = convert_line(&list[i]) {
            let chars = chars_of(&line);
            outs.push(chars);
            assert(char_views(outs@) =~= before.push(chars@));
        }
        i += 1;
    }
    assert(all.take(list@.len() as int) =~= all);
    string_of(&join(&outs, &chars_of("\n")))
}

/// The converted lyrics file.
pub open spec fn converted_file(data: Seq<u8>) -> Seq<u8> {
    encode_utf8(converted(lossy_text(data)))
}

/// Converts a lyrics file into standard `[mm:ss.xx] text` lines.
///
/// A line of JSON becomes its text behind its time, a plain line keeps its text
/// behind a time with two decimals. Repeated time stamps stay as they are.
pub fn parse_lrc(data: &[u8]) -> (out: Vec<u8>)
    ensures
        out@ == converted_file(data@),
{
    let text = convert_lyrics(&decode_lossy(data));
    vstd::slice::slice_to_vec(text.as_str().as_bytes())
}

} // verus!
