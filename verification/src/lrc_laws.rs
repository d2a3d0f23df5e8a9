//! What holds of lyrics as a whole.

use vstd::prelude::*;
use vstd::utf8::{
    decode_utf8, decode_utf8_encode_utf8, encode_scalar, encode_utf8, encode_utf8_decode_utf8,
    encode_utf8_valid_utf8, valid_utf8,
};
use crate::bytes::{first_index, lemma_first_index, lemma_first_index_props};
use crate::json::{json_of, Tree};
use crate::lrc::{
    all_outputs, converted, converted_file, digit_at, hundredths, lemma_only_digits, line_output,
    meta_text, meta_time, normalised, parts_text, plain_output, quotient, read_stamp, remainder,
    stamp, without_marks,
};
use crate::text::{
    decimal, digit, digits_value, is_digit, is_space, joined, lines, lossy_text, number_of,
    only_digits, strip_cr, trim_front, trimmed, two_wide, unsigned_part,
};

verus! {

proof fn lemma_lines_append(a: Seq<char>, b: Seq<char>)
    requires
        a.len() == 0 || a.last() == '\n',
    ensures
        lines(a + b) == lines(a) + lines(b),
    decreases a.len(),
{
    if a.len() == 0 {
        assert(a + b =~= b);
        assert(lines(a) + lines(b) =~= lines(b));
    } else {
        let k = first_index(a, '\n');
        lemma_first_index_props(a, '\n');
        lemma_first_index_props(a + b, '\n');
        assert(k < a.len()) by {
            if k == a.len() {
                assert(a[a.len() - 1] != '\n');
            }
        }
        lemma_first_index(a + b, '\n', k);
        let rest = a.skip(k + 1);
        assert((a + b).skip(k + 1) =~= rest + b);
        assert((a + b).take(k) =~= a.take(k));
        assert(rest.len() > 0 ==> rest.last() == a.last());
        lemma_lines_append(rest, b);
        assert(lines(a + b) =~= seq![strip_cr(a.take(k))] + (lines(rest) + lines(b)));
        assert(lines(a) + lines(b) =~= seq![strip_cr(a.take(k))] + (lines(rest) + lines(b)));
    }
}

proof fn lemma_outputs_append(x: Seq<Seq<char>>, y: Seq<Seq<char>>)
    ensures
        all_outputs(x + y) == all_outputs(x) + all_outputs(y),
    decreases y.len(),
{
    if y.len() == 0 {
        assert(x + y =~= x);
        assert(all_outputs(x) + all_outputs(y) =~= all_outputs(x));
    } else {
        assert((x + y).drop_last() =~= x + y.drop_last());
        assert((x + y).last() == y.last());
        lemma_outputs_append(x, y.drop_last());
        match line_output(y.last()) {
            Some(line) => {
                assert((all_outputs(x) + all_outputs(y.drop_last())).push(line) =~= all_outputs(x)
                    + all_outputs(y.drop_last()).push(line));
            },
            None => {},
        }
    }
}

proof fn lemma_trim_front_keeps_the_end(t: Seq<char>)
    requires
        t.len() > 0,
        is_space(t.last()),
    ensures
        ({
            let u = trim_front(t);
            let v = trim_front(t.drop_last());
            if u.len() == 0 {
                v.len() == 0
            } else {
                u.last() == t.last() && v == u.drop_last()
            }
        }),
    decreases t.len(),
{
    if is_space(t[0]) {
        let rest = t.skip(1);
        if rest.len() > 0 {
            lemma_trim_front_keeps_the_end(rest);
            assert(rest.drop_last() =~= t.drop_last().skip(1));
            assert(t.drop_last()[0] == t[0]);
        } else {
            assert(trim_front(rest).len() == 0);
            assert(trim_front(t.drop_last()).len() == 0);
        }
    } else {
        assert(t.drop_last()[0] == t[0]);
    }
}

proof fn lemma_trimming_drops_the_end(t: Seq<char>)
    requires
        t.len() > 0,
        is_space(t.last()),
    ensures
        trimmed(t) == trimmed(t.drop_last()),
{
    lemma_trim_front_keeps_the_end(t);
    if trim_front(t).len() == 0 {
        assert(trim_front(t) =~= trim_front(t.drop_last()));
    }
}

proof fn lemma_marks_keep_the_end(s: Seq<char>)
    requires
        s.len() > 0,
        s.last() == '\r',
    ensures
        without_marks(s).len() > 0,
        without_marks(s).last() == '\r',
        without_marks(s.drop_last()) == without_marks(s).drop_last(),
    decreases s.len(),
{
    if s[0] == '\u{feff}' {
        let rest = s.skip(1);
        assert(rest.len() > 0);
        lemma_marks_keep_the_end(rest);
        assert(rest.drop_last() =~= s.drop_last().skip(1));
        assert(s.drop_last()[0] == s[0]);
    } else if s.len() > 1 {
        assert(s.drop_last()[0] == s[0]);
    }
}

/// A carriage return at the end of a line makes no difference.
proof fn lemma_carriage_return(line: Seq<char>)
    ensures
        line_output(strip_cr(line)) == line_output(line),
{
    if line.len() > 0 && line.last() == '\r' {
        lemma_marks_keep_the_end(line);
        lemma_trimming_drops_the_end(without_marks(line));
    }
}

/// A line feed at the end of a text makes no difference.
proof fn lemma_final_line_feed(x: Seq<char>)
    ensures
        all_outputs(lines(x.push('\n'))) == all_outputs(lines(x)),
    decreases x.len(),
{
    let none = Seq::<Seq<char>>::empty();
    let more = x.push('\n');
    let k = first_index(x, '\n');
    lemma_first_index_props(x, '\n');
    lemma_first_index(more, '\n', k);
    assert(more.take(k) =~= x.take(k));
    if k < x.len() {
        let line = strip_cr(x.take(k));
        let rest = x.skip(k + 1);
        assert(more.skip(k + 1) =~= rest.push('\n'));
        lemma_final_line_feed(rest);
        lemma_outputs_append(seq![line], lines(rest));
        lemma_outputs_append(seq![line], lines(rest.push('\n')));
    } else {
        assert(x.take(k) =~= x);
        assert(more.skip(k + 1) =~= Seq::<char>::empty());
        assert(lines(more.skip(k + 1)) == none);
        assert(lines(more) =~= seq![strip_cr(x)]);
        lemma_one_output(strip_cr(x));
        lemma_one_output(x);
        lemma_carriage_return(x);
        if x.len() == 0 {
            assert(strip_cr(x) == x);
            assert(without_marks(x).len() == 0);
            assert(trimmed(x).len() == 0);
            assert(lines(x) == none);
        }
    }
}

proof fn lemma_one_output(line: Seq<char>)
    ensures
        all_outputs(seq![line]) == match line_output(line) {
            Some(out) => seq![out],
            None => Seq::empty(),
        },
{
    let none = Seq::<Seq<char>>::empty();
    assert(seq![line].drop_last() =~= none);
    assert(all_outputs(none) == none);
    if let Some(out) = line_output(line) {
        assert(none.push(out) =~= seq![out]);
    }
}

/// Lyrics are converted line by line: what the lines of a first part give is
/// followed by what the lines of a second part give, whatever the two hold. So
/// the order stays, and a repeated time stamp stays too.
pub proof fn law_lines_are_independent(x: Seq<char>, y: Seq<char>)
    ensures
        all_outputs(lines(x + seq!['\n'] + y)) == all_outputs(lines(x)) + all_outputs(lines(y)),
{
    let first = x.push('\n');
    assert(x + seq!['\n'] + y =~= first + y);
    lemma_lines_append(first, y);
    lemma_outputs_append(lines(first), lines(y));
    lemma_final_line_feed(x);
}

/// Two parts with `sep` between them, where neither is empty.
pub open spec fn glued<T>(a: Seq<T>, sep: T, b: Seq<T>) -> Seq<T> {
    if a.len() == 0 {
        b
    } else if b.len() == 0 {
        a
    } else {
        a + seq![sep] + b
    }
}

proof fn lemma_stamp_is_not_empty(minutes: int, seconds: int, cs: int)
    ensures
        stamp(minutes, seconds, cs).len() > 0,
{
    reveal_strlit("[");
}

proof fn lemma_outputs_are_not_empty(list: Seq<Seq<char>>)
    ensures
        forall|i: int| 0 <= i < all_outputs(list).len() ==> (#[trigger] all_outputs(list)[i]).len() > 0,
    decreases list.len(),
{
    if list.len() > 0 {
        lemma_outputs_are_not_empty(list.drop_last());
        let before = all_outputs(list.drop_last());
        let text = trimmed(without_marks(list.last()));
        if let Some(out) = line_output(list.last()) {
            assert(out.len() > 0) by {
                match json_of(text) {
                    Some(tree) => {
                        let t = meta_time(tree);
                        lemma_stamp_is_not_empty(
                            quotient(t, 60000),
                            quotient(remainder(t, 60000), 1000),
                            quotient(remainder(t, 1000), 10),
                        );
                    },
                    None => {
                        let rest = text.skip(1);
                        if let Some((m, sec, cs)) = read_stamp(rest.take(first_index(rest, ']'))) {
                            lemma_stamp_is_not_empty(m as int, sec as int, cs);
                        }
                    },
                }
            }
            assert forall|i: int| 0 <= i < all_outputs(list).len() implies (
            #[trigger] all_outputs(list)[i]).len() > 0 by {
                if i < before.len() {
                    assert(all_outputs(list)[i] == before[i]);
                }
            }
        }
    }
}

proof fn lemma_joined_append(a: Seq<Seq<char>>, b: Seq<Seq<char>>, sep: Seq<char>)
    requires
        a.len() > 0,
        b.len() > 0,
    ensures
        joined(a + b, sep) == joined(a, sep) + sep + joined(b, sep),
    decreases b.len(),
{
    assert((a + b).last() == b.last());
    assert((a + b).drop_last() =~= a + b.drop_last());
    if b.len() == 1 {
        assert(b.drop_last() =~= Seq::<Seq<char>>::empty());
        assert(a + b.drop_last() =~= a);
    } else {
        lemma_joined_append(a, b.drop_last(), sep);
        assert(joined(a, sep) + sep + joined(b.drop_last(), sep) + sep + b.last() =~= joined(a, sep)
            + sep + (joined(b.drop_last(), sep) + sep + b.last()));
    }
}

proof fn lemma_joined_is_not_empty(list: Seq<Seq<char>>, sep: Seq<char>)
    requires
        list.len() > 0,
        forall|i: int| 0 <= i < list.len() ==> (#[trigger] list[i]).len() > 0,
    ensures
        joined(list, sep).len() > 0,
{
    assert(list[0].len() > 0);
    assert(list[list.len() - 1].len() > 0);
}

/// The conversion of two texts with a line feed between them is the conversion
/// of the first, a line feed, and that of the second. Where one of the two gives
/// nothing, it is that of the other.
pub proof fn law_texts_are_converted_in_parts(x: Seq<char>, y: Seq<char>)
    ensures
        converted(x + seq!['\n'] + y) == glued(converted(x), '\n', converted(y)),
{
    law_lines_are_independent(x, y);
    let a = all_outputs(lines(x));
    let b = all_outputs(lines(y));
    let sep = "\n"@;
    reveal_strlit("\n");
    assert(sep =~= seq!['\n']);
    lemma_outputs_are_not_empty(lines(x));
    lemma_outputs_are_not_empty(lines(y));
    if a.len() == 0 {
        assert(a + b =~= b);
    } else if b.len() == 0 {
        assert(a + b =~= a);
        lemma_joined_is_not_empty(a, sep);
    } else {
        lemma_joined_append(a, b, sep);
        lemma_joined_is_not_empty(a, sep);
        lemma_joined_is_not_empty(b, sep);
    }
}

proof fn lemma_encode_append(a: Seq<char>, b: Seq<char>)
    ensures
        encode_utf8(a + b) == encode_utf8(a) + encode_utf8(b),
    decreases a.len(),
{
    if a.len() == 0 {
        assert(a + b =~= b);
        assert(encode_utf8(a) + encode_utf8(b) =~= encode_utf8(b));
    } else {
        lemma_encode_append(a.drop_first(), b);
        assert((a + b).drop_first() =~= a.drop_first() + b);
        assert((a + b)[0] == a[0]);
        let first = encode_scalar(a[0] as u32);
        assert(first + (encode_utf8(a.drop_first()) + encode_utf8(b)) =~= (first + encode_utf8(
            a.drop_first(),
        )) + encode_utf8(b));
    }
}

proof fn lemma_encode_line_feed()
    ensures
        encode_utf8(seq!['\n']) == seq![0x0au8],
{
    let feed = seq!['\n'];
    assert(feed.drop_first() =~= Seq::<char>::empty());
    assert(encode_utf8(feed.drop_first()) =~= Seq::<u8>::empty());
    assert(10u32 & 0x7f == 10) by (bit_vector);
    assert('\n' as u32 == 10);
    assert(encode_utf8(feed) =~= seq![0x0au8]);
}

proof fn lemma_encode_parts(a: Seq<char>, b: Seq<char>)
    ensures
        encode_utf8(a + seq!['\n'] + b) == encode_utf8(a) + seq![0x0au8] + encode_utf8(b),
        encode_utf8(a).len() == 0 <==> a.len() == 0,
{
    lemma_encode_line_feed();
    lemma_encode_append(a, seq!['\n']);
    lemma_encode_append(a + seq!['\n'], b);
}

/// A lyrics file is converted line by line: of two files in UTF-8 with a line
/// feed between them, the conversion is that of the first, a line feed, and that
/// of the second. Where one of the two gives nothing, it is that of the other.
pub proof fn law_files_are_converted_in_parts(x: Seq<u8>, y: Seq<u8>)
    requires
        valid_utf8(x),
        valid_utf8(y),
    ensures
        converted_file(x + seq![0x0au8] + y) == glued(converted_file(x), 0x0au8, converted_file(y)),
{
    let a = decode_utf8(x);
    let b = decode_utf8(y);
    let both = a + seq!['\n'] + b;
    decode_utf8_encode_utf8(x);
    decode_utf8_encode_utf8(y);
    lemma_encode_parts(a, b);
    encode_utf8_valid_utf8(both);
    encode_utf8_decode_utf8(both);
    assert(lossy_text(x + seq![0x0au8] + y) == both);
    law_texts_are_converted_in_parts(a, b);
    lemma_encode_parts(converted(a), converted(b));
    lemma_encode_parts(converted(b), converted(a));
}

spec fn all_digits(s: Seq<char>) -> bool {
    forall|i: int| 0 <= i < s.len() ==> is_digit(#[trigger] s[i])
}

proof fn lemma_decimal(n: nat)
    ensures
        decimal(n).len() > 0,
        all_digits(decimal(n)),
        digits_value(decimal(n)) == n,
    decreases n,
{
    if n < 10 {
        assert(decimal(n).drop_last() =~= Seq::<char>::empty());
        assert(digits_value(decimal(n).drop_last()) == 0);
    } else {
        lemma_decimal(n / 10);
        let s = decimal(n);
        assert(s.drop_last() =~= decimal(n / 10));
        assert(forall|i: int| 0 <= i < s.len() - 1 ==> s[i] == decimal(n / 10)[i]);
    }
}

proof fn lemma_two_wide(n: int)
    requires
        0 <= n,
    ensures
        two_wide(n).len() > 0,
        all_digits(two_wide(n)),
        digits_value(two_wide(n)) == n,
{
    lemma_decimal(n as nat);
    if n < 10 {
        let s = two_wide(n);
        assert(s =~= seq!['0', digit(n)]);
        assert(s.drop_last() =~= seq!['0']);
        assert(seq!['0'].drop_last() =~= Seq::<char>::empty());
        assert(digits_value(seq!['0']) == 0) by {
            assert(digits_value(seq!['0'].drop_last()) == 0);
        }
    }
}

proof fn lemma_number_of_two_wide(n: u32)
    ensures
        number_of(two_wide(n as int)) == Some(n),
{
    lemma_two_wide(n as int);
    assert(is_digit(two_wide(n as int)[0]));
    assert(unsigned_part(two_wide(n as int)) == two_wide(n as int));
}

proof fn lemma_digits_stay(s: Seq<char>)
    requires
        all_digits(s),
    ensures
        only_digits(s) == s,
    decreases s.len(),
{
    if s.len() > 0 {
        let shorter = s.drop_last();
        assert(forall|i: int| 0 <= i < shorter.len() ==> shorter[i] == s[i]);
        lemma_digits_stay(shorter);
        assert(is_digit(s[s.len() - 1]));
        assert(only_digits(s) =~= s);
    }
}

proof fn lemma_digits_are_trimmed(s: Seq<char>)
    requires
        s.len() > 0,
        all_digits(s),
    ensures
        trimmed(s) == s,
{
    assert(is_digit(s[0]));
    assert(is_digit(s[s.len() - 1]));
}

proof fn lemma_hundredths_of_two_wide(cs: int)
    requires
        0 <= cs <= 99,
    ensures
        hundredths(two_wide(cs)) == cs,
{
    lemma_two_wide(cs);
    lemma_digits_stay(two_wide(cs));
    if cs >= 10 {
        assert(decimal((cs / 10) as nat) == seq![digit(cs / 10)]);
        assert(two_wide(cs) =~= seq![digit(cs / 10), digit(cs % 10)]);
    } else {
        assert(two_wide(cs) =~= seq!['0', digit(cs)]);
    }
}

proof fn lemma_read_stamp_back(m: u32, sec: u32, cs: int)
    requires
        0 <= cs <= 99,
    ensures
        ({
            let inner = two_wide(m as int) + ":"@ + two_wide(sec as int) + "."@ + two_wide(cs);
            &&& read_stamp(inner) == Some((m, sec, cs))
            &&& forall|i: int| 0 <= i < inner.len() ==> #[trigger] inner[i] != ']'
        }),
{
    reveal_strlit(":");
    reveal_strlit(".");
    let mm = two_wide(m as int);
    let ss = two_wide(sec as int);
    let cc = two_wide(cs);
    let inner = mm + ":"@ + ss + "."@ + cc;
    lemma_two_wide(m as int);
    lemma_two_wide(sec as int);
    lemma_two_wide(cs);
    lemma_number_of_two_wide(m);
    lemma_number_of_two_wide(sec);
    lemma_hundredths_of_two_wide(cs);
    lemma_digits_are_trimmed(mm);
    assert(forall|i: int| 0 <= i < mm.len() ==> inner[i] == mm[i]);
    lemma_first_index(inner, ':', mm.len() as int);
    assert(inner.take(mm.len() as int) =~= mm);
    let tail = inner.skip(mm.len() as int + 1);
    assert(tail =~= ss + "."@ + cc);
    assert(forall|i: int| 0 <= i < ss.len() ==> tail[i] == ss[i]);
    lemma_first_index(tail, '.', ss.len() as int);
    assert(tail.take(ss.len() as int) =~= ss);
    assert(tail.skip(ss.len() as int + 1) =~= cc);
    assert forall|i: int| 0 <= i < inner.len() implies #[trigger] inner[i] != ']' by {
        if i < mm.len() {
            assert(is_digit(mm[i]));
        } else if i > mm.len() && i < mm.len() + 1 + ss.len() {
            assert(is_digit(ss[i - mm.len() - 1]));
        } else if i > mm.len() + 1 + ss.len() {
            assert(is_digit(cc[i - mm.len() - ss.len() - 2]));
        }
    }
}

proof fn lemma_hundredths_range(fraction: Seq<char>)
    ensures
        0 <= hundredths(fraction) <= 99,
{
    lemma_only_digits(fraction);
    let d = only_digits(fraction);
    assert(d.len() > 0 ==> is_digit(d[0]));
    assert(d.len() > 1 ==> is_digit(d[1]));
}

/// A line that was brought to two decimals stays as it is when it is converted
/// once more.
pub proof fn law_plain_lines_are_stable(line: Seq<char>)
    ensures
        plain_output(plain_output(line)) == plain_output(line),
{
    let rest = line.skip(1);
    let close = first_index(rest, ']');
    if line.len() > 0 && line[0] == '[' && close < rest.len() {
        if let Some((m, sec, cs)) = read_stamp(rest.take(close)) {
            let s = rest.take(close);
            let tail = s.skip(first_index(s, ':') + 1);
            lemma_hundredths_range(tail.skip(first_index(tail, '.') + 1));
            lemma_read_stamp_back(m, sec, cs);
            reveal_strlit("[");
            reveal_strlit("]");
            let body = rest.skip(close + 1);
            let inner = two_wide(m as int) + ":"@ + two_wide(sec as int) + "."@ + two_wide(cs);
            let out = stamp(m as int, sec as int, cs) + body;
            assert(out.skip(1) =~= inner + "]"@ + body);
            assert(forall|i: int| 0 <= i < inner.len() ==> out.skip(1)[i] == inner[i]);
            lemma_first_index(out.skip(1), ']', inner.len() as int);
            assert(out.skip(1).take(inner.len() as int) =~= inner);
            assert(out.skip(1).skip(inner.len() as int + 1) =~= body);
        }
    }
}

/// Whether the text holds the character.
pub open spec fn holds(s: Seq<char>, c: char) -> bool {
    exists|i: int| 0 <= i < s.len() && #[trigger] s[i] == c
}

proof fn lemma_found_behind(front: Seq<char>, c: char, back: Seq<char>)
    requires
        !holds(front, c),
    ensures
        first_index(front + seq![c] + back, c) == front.len(),
        (front + seq![c] + back).take(front.len() as int) == front,
        (front + seq![c] + back).skip(front.len() as int + 1) == back,
        first_index(front, c) == front.len(),
{
    let s = front + seq![c] + back;
    let n = front.len() as int;
    assert forall|j: int| 0 <= j < n implies s[j] != c by {
        assert(s[j] == front[j]);
        assert(front[j] != c);
    }
    lemma_first_index(s, c, n);
    assert(s.take(n) =~= front);
    assert(s.skip(n + 1) =~= back);
    assert forall|j: int| 0 <= j < n implies front[j] != c by {}
    lemma_first_index(front, c, n);
}

/// The first colon of a text gets one space on both sides, and what stands on its
/// sides is trimmed. A full-width colon only counts where there is no other, and a
/// text without any colon stays.
pub proof fn law_colons_are_spaced(key: Seq<char>, value: Seq<char>)
    ensures
        !holds(key, ':') ==> normalised(key + seq![':'] + value) == trimmed(key) + seq![' ', ':', ' ']
            + trimmed(value),
        !holds(key, ':') && !holds(value, ':') && !holds(key, '\u{ff1a}') ==> normalised(
            key + seq!['\u{ff1a}'] + value,
        ) == trimmed(key) + seq![' ', ':', ' '] + trimmed(value),
        !holds(key, ':') && !holds(key, '\u{ff1a}') ==> normalised(key) == key,
{
    reveal_strlit(" : ");
    assert(" : "@ =~= seq![' ', ':', ' ']);
    if !holds(key, ':') {
        lemma_found_behind(key, ':', value);
        if !holds(key, '\u{ff1a}') {
            lemma_found_behind(key, '\u{ff1a}', value);
            if !holds(value, ':') {
                let wide = key + seq!['\u{ff1a}'] + value;
                assert(!holds(wide, ':')) by {
                    if holds(wide, ':') {
                        let i = choose|i: int| 0 <= i < wide.len() && #[trigger] wide[i] == ':';
                        if i < key.len() {
                            assert(key[i] == ':');
                        } else if i > key.len() {
                            assert(value[i - key.len() - 1] == ':');
                        }
                    }
                }
                lemma_found_behind(wide, ':', value);
            }
        }
    }
}

/// `[mm:ss.xx]`, with two characters for the hundredths.
pub open spec fn bracketed(m: int, s: int, tens: char, ones: char) -> Seq<char> {
    seq!['['] + two_wide(m) + seq![':'] + two_wide(s) + seq!['.', tens, ones, ']']
}

/// The digit at a place, or a zero where there is none.
pub open spec fn digit_or_zero(digits: Seq<char>, i: int) -> char {
    if 0 <= i < digits.len() {
        digits[i]
    } else {
        '0'
    }
}

proof fn lemma_two_digits(a: int, b: int)
    requires
        0 <= a < 10,
        0 <= b < 10,
    ensures
        two_wide(a * 10 + b) == seq![digit(a), digit(b)],
{
    if a > 0 {
        let n = (a * 10 + b) as nat;
        assert(n / 10 == a && n % 10 == b);
        assert(decimal((n / 10) as nat) == seq![digit(a)]);
    }
    assert(two_wide(a * 10 + b) =~= seq![digit(a), digit(b)]);
}

proof fn lemma_bracketed(m: int, s: int, fraction: Seq<char>)
    ensures
        stamp(m, s, hundredths(fraction)) == bracketed(
            m,
            s,
            digit_or_zero(only_digits(fraction), 0),
            digit_or_zero(only_digits(fraction), 1),
        ),
        stamp(m, s, 0) == bracketed(m, s, '0', '0'),
{
    reveal_strlit("[");
    reveal_strlit("]");
    reveal_strlit(":");
    reveal_strlit(".");
    let d = only_digits(fraction);
    lemma_only_digits(fraction);
    assert(d.len() > 0 ==> is_digit(d[0]));
    assert(d.len() > 1 ==> is_digit(d[1]));
    let a = digit_at(d, 0);
    let b = digit_at(d, 1);
    lemma_two_digits(a, b);
    lemma_two_digits(0, 0);
    assert(digit(a) == digit_or_zero(d, 0));
    assert(digit(b) == digit_or_zero(d, 1));
    assert(stamp(m, s, hundredths(fraction)) =~= bracketed(
        m,
        s,
        digit_or_zero(d, 0),
        digit_or_zero(d, 1),
    ));
    assert(stamp(m, s, 0) =~= bracketed(m, s, '0', '0'));
}

proof fn lemma_absent(a: Seq<char>, b: Seq<char>, c: char)
    requires
        !holds(a, c),
        !holds(b, c),
    ensures
        !holds(a + b, c),
{
    if holds(a + b, c) {
        let i = choose|i: int| 0 <= i < (a + b).len() && #[trigger] (a + b)[i] == c;
        if i < a.len() {
            assert(a[i] == c);
        } else {
            assert(b[i - a.len()] == c);
        }
    }
}

proof fn lemma_absent_one(x: char, c: char)
    requires
        x != c,
    ensures
        !holds(seq![x], c),
{
}

/// A time stamp is brought to two decimals: the first two digits of its fraction,
/// with zeros where there are fewer, and never rounded. Its minutes and seconds
/// get two places, and what stands behind it stays.
pub proof fn law_stamps_get_two_decimals(
    minutes: Seq<char>,
    seconds: Seq<char>,
    fraction: Seq<char>,
    body: Seq<char>,
)
    requires
        !holds(minutes, ':') && !holds(minutes, ']'),
        !holds(seconds, '.') && !holds(seconds, ']'),
        !holds(fraction, ']'),
    ensures
        ({
            let line = seq!['['] + (minutes + seq![':'] + (seconds + seq!['.'] + fraction)) + seq![']']
                + body;
            let whole = seq!['['] + (minutes + seq![':'] + seconds) + seq![']'] + body;
            let digits = only_digits(fraction);
            match (number_of(trimmed(minutes)), number_of(seconds)) {
                (Some(m), Some(s)) => {
                    &&& plain_output(line) == bracketed(
                        m as int,
                        s as int,
                        digit_or_zero(digits, 0),
                        digit_or_zero(digits, 1),
                    ) + body
                    &&& plain_output(whole) == bracketed(m as int, s as int, '0', '0') + body
                },
                _ => plain_output(line) == line && plain_output(whole) == whole,
            }
        }),
{
    let tail = seconds + seq!['.'] + fraction;
    let inner = minutes + seq![':'] + tail;
    let short = minutes + seq![':'] + seconds;
    let line = seq!['['] + inner + seq![']'] + body;
    let whole = seq!['['] + short + seq![']'] + body;
    lemma_absent_one('.', ']');
    lemma_absent_one(':', ']');
    lemma_absent(seconds, seq!['.'], ']');
    lemma_absent(seconds + seq!['.'], fraction, ']');
    lemma_absent(minutes, seq![':'], ']');
    lemma_absent(minutes + seq![':'], tail, ']');
    lemma_absent(minutes + seq![':'], seconds, ']');
    assert(line.skip(1) =~= inner + seq![']'] + body);
    assert(whole.skip(1) =~= short + seq![']'] + body);
    lemma_found_behind(inner, ']', body);
    lemma_found_behind(short, ']', body);
    lemma_found_behind(minutes, ':', tail);
    lemma_found_behind(minutes, ':', seconds);
    lemma_found_behind(seconds, '.', fraction);
    assert(seconds.take(seconds.len() as int) =~= seconds);
    if let (Some(m), Some(s)) = (number_of(trimmed(minutes)), number_of(seconds)) {
        lemma_bracketed(m as int, s as int, fraction);
        assert(read_stamp(inner) == Some((m, s, hundredths(fraction))));
        assert(read_stamp(short) == Some((m, s, 0int)));
    }
}

/// A line that does not begin with a bracket, has no closing bracket, or no colon
/// between the two, stays as it is.
pub proof fn law_other_lines_stay(line: Seq<char>, inner: Seq<char>, body: Seq<char>)
    ensures
        line.len() == 0 || line[0] != '[' ==> plain_output(line) == line,
        !holds(line, ']') ==> plain_output(line) == line,
        !holds(inner, ']') && !holds(inner, ':') ==> plain_output(
            seq!['['] + inner + seq![']'] + body,
        ) == seq!['['] + inner + seq![']'] + body,
{
    if !holds(line, ']') && line.len() > 0 {
        let rest = line.skip(1);
        assert(!holds(rest, ']')) by {
            if holds(rest, ']') {
                let i = choose|i: int| 0 <= i < rest.len() && #[trigger] rest[i] == ']';
                assert(line[i + 1] == ']');
            }
        }
        lemma_found_behind(rest, ']', rest);
    }
    if !holds(inner, ']') && !holds(inner, ':') {
        let whole = seq!['['] + inner + seq![']'] + body;
        assert(whole.skip(1) =~= inner + seq![']'] + body);
        lemma_found_behind(inner, ']', body);
        lemma_found_behind(inner, ':', inner);
    }
}

/// The part of a line behind its first closing bracket.
pub open spec fn behind_bracket(line: Seq<char>) -> Seq<char> {
    line.skip(first_index(line, ']') + 1)
}

/// No line is lost and no text is changed. A line that is neither empty nor JSON
/// gives exactly one line, with the same text behind its closing bracket; where it
/// has no brackets it gives its whole text.
pub proof fn law_no_line_is_lost(line: Seq<char>)
    requires
        trimmed(without_marks(line)).len() > 0,
        json_of(trimmed(without_marks(line))) is None,
    ensures
        ({
            let text = trimmed(without_marks(line));
            &&& line_output(line) matches Some(out)
            &&& behind_bracket(out) == behind_bracket(text)
            &&& out[0] == text[0]
            &&& text[0] != '[' || !holds(text, ']') ==> out == text
            &&& out == text || (text[0] == '[' && exists|m: u32, s: u32, a: char, b: char|
                out == #[trigger] bracketed(m as int, s as int, a, b) + behind_bracket(text))
        }),
{
    let text = trimmed(without_marks(line));
    let out = plain_output(text);
    law_other_lines_stay(text, text, text);
    let rest = text.skip(1);
    let close = first_index(rest, ']');
    lemma_first_index_props(rest, ']');
    if text[0] == '[' && close < rest.len() {
        let front = seq!['['] + rest.take(close);
        let body = rest.skip(close + 1);
        assert(text =~= front + seq![']'] + body);
        assert(!holds(front, ']')) by {
            assert forall|i: int| 0 <= i < front.len() implies #[trigger] front[i] != ']' by {
                if i > 0 {
                    assert(front[i] == rest[i - 1]);
                }
            }
        }
        lemma_found_behind(front, ']', body);
        if let Some((m, s, cs)) = read_stamp(rest.take(close)) {
            let inner = rest.take(close);
            let tail = inner.skip(first_index(inner, ':') + 1);
            let dot = first_index(tail, '.');
            let fraction = tail.skip(dot + 1);
            lemma_bracketed(m as int, s as int, fraction);
            lemma_hundredths_range(fraction);
            lemma_read_stamp_back(m, s, cs);
            reveal_strlit("[");
            reveal_strlit("]");
            let shown = two_wide(m as int) + ":"@ + two_wide(s as int) + "."@ + two_wide(cs);
            let new = seq!['['] + shown;
            assert(!holds(new, ']')) by {
                assert forall|i: int| 0 <= i < new.len() implies #[trigger] new[i] != ']' by {
                    if i > 0 {
                        assert(new[i] == shown[i - 1]);
                    }
                }
            }
            assert(out =~= new + seq![']'] + body);
            lemma_found_behind(new, ']', body);
            let (a, b) = if dot < tail.len() {
                (digit_or_zero(only_digits(fraction), 0), digit_or_zero(only_digits(fraction), 1))
            } else {
                ('0', '0')
            };
            assert(out == bracketed(m as int, s as int, a, b) + behind_bracket(text));
        }
    }
}

/// Byte order marks in front of a line are dropped, however many there are, and
/// nothing else is.
pub proof fn law_marks_are_dropped(s: Seq<char>)
    ensures
        without_marks(seq!['\u{feff}'] + s) == without_marks(s),
        s.len() == 0 || s[0] != '\u{feff}' ==> without_marks(s) == s,
{
    assert((seq!['\u{feff}'] + s).skip(1) =~= s);
}

/// The texts of a meta line are those of its parts, one after the other. A part
/// adds its text under `tx`, if it has one.
pub proof fn law_parts_are_joined(a: Seq<Tree>, b: Seq<Tree>, one: Tree)
    ensures
        parts_text(a + b) == parts_text(a) + parts_text(b),
        parts_text(seq![one]) == match one.field("tx"@) {
            Some(Tree::Text(text)) => text,
            _ => Seq::<char>::empty(),
        },
    decreases b.len(),
{
    assert(seq![one].drop_last() =~= Seq::<Tree>::empty());
    assert(parts_text(Seq::<Tree>::empty()) == Seq::<char>::empty());
    assert(parts_text(seq![one]) =~= match one.field("tx"@) {
        Some(Tree::Text(text)) => text,
        _ => Seq::<char>::empty(),
    });
    if b.len() == 0 {
        assert(a + b =~= a);
        assert(parts_text(a) + parts_text(b) =~= parts_text(a));
    } else {
        assert((a + b).drop_last() =~= a + b.drop_last());
        law_parts_are_joined(a, b.drop_last(), one);
        assert(parts_text(a + b) =~= parts_text(a) + parts_text(b));
    }
}

/// A meta line gives its text behind its time, or no line where it has no text.
/// The time is cut to hundredths of a second: minutes, seconds and hundredths add
/// up to it but for less than ten milliseconds. A negative time is that of its
/// magnitude with signs.
pub proof fn law_meta_lines_are_stamped(line: Seq<char>, tree: Tree, text: Seq<char>, t: int)
    requires
        trimmed(without_marks(line)).len() > 0,
        json_of(trimmed(without_marks(line))) == Some(tree),
        text == match tree.field("c"@) {
            Some(Tree::List(parts)) => parts_text(parts),
            _ => Seq::<char>::empty(),
        },
        t == match tree.field("t"@) {
            Some(Tree::Number(Some(n))) => n as int,
            _ => 0,
        },
    ensures
        text.len() == 0 ==> line_output(line) is None,
        text.len() > 0 ==> exists|m: int, s: int, c: int|
            adds_up(t, m, s, c) && line_output(line) == Some(
                #[trigger] stamped(t, m, s, c) + seq![' '] + normalised(text),
            ),
{
    reveal_strlit("[");
    reveal_strlit("]");
    reveal_strlit(":");
    reveal_strlit(".");
    reveal_strlit(" ");
    assert(t == meta_time(tree) && text == meta_text(tree));
    let size = if t < 0 {
        -t
    } else {
        t
    };
    let m = size / 60000;
    let s = (size % 60000) / 1000;
    let c = (size % 1000) / 10;
    assert(size % 60000 == size - 60000 * m);
    assert((size % 60000) % 1000 == size % 1000);
    assert(m * 60000 + s * 1000 + c * 10 <= size < m * 60000 + s * 1000 + c * 10 + 10);
    if text.len() > 0 {
        let (x, y, z) = (
            quotient(t, 60000),
            quotient(remainder(t, 60000), 1000),
            quotient(remainder(t, 1000), 10),
        );
        if t < 0 {
            assert(x == -m);
            assert(remainder(t, 60000) == -(size % 60000));
            assert(y == -s);
            assert(remainder(t, 1000) == -(size % 1000));
            assert(z == -c);
        } else {
            assert(x == m && y == s && z == c);
        }
        assert(stamp(x, y, z) =~= stamped(t, m, s, c));
        assert(" "@ =~= seq![' ']);
        assert(adds_up(t, m, s, c));
        assert(line_output(line) == Some(stamped(t, m, s, c) + seq![' '] + normalised(text)));
    }
}

/// Minutes, seconds and hundredths add up to the magnitude of `t` milliseconds,
/// but for less than ten milliseconds.
pub open spec fn adds_up(t: int, m: int, s: int, c: int) -> bool {
    let size = if t < 0 {
        -t
    } else {
        t
    };
    let sum = m * 60000 + s * 1000 + c * 10;
    0 <= m && 0 <= s < 60 && 0 <= c < 100 && sum <= size < sum + 10
}

/// `[mm:ss.xx]` for three numbers with the sign of `t`.
pub open spec fn stamped(t: int, m: int, s: int, c: int) -> Seq<char> {
    if t < 0 {
        seq!['['] + two_wide(-m) + seq![':'] + two_wide(-s) + seq!['.'] + two_wide(-c) + seq![']']
    } else {
        seq!['['] + two_wide(m) + seq![':'] + two_wide(s) + seq!['.'] + two_wide(c) + seq![']']
    }
}

/// A text of one line is converted to the line that it gives, or to nothing.
pub proof fn law_one_line_is_converted(line: Seq<char>)
    requires
        !holds(line, '\n'),
    ensures
        converted(line) == match line_output(line) {
            Some(out) => out,
            None => Seq::<char>::empty(),
        },
        trimmed(without_marks(line)).len() == 0 ==> line_output(line) is None,
{
    lemma_found_behind(line, '\n', line);
    lemma_one_output(line);
    if line.len() == 0 {
        assert(lines(line) == Seq::<Seq<char>>::empty());
        assert(without_marks(line) == line);
        assert(trimmed(line).len() == 0);
    } else {
        assert(lines(line) == seq![line]);
    }
}

/// A lyrics file in UTF-8 is converted as its text is, into UTF-8.
pub proof fn law_files_are_converted_as_texts(data: Seq<u8>)
    requires
        valid_utf8(data),
    ensures
        valid_utf8(converted_file(data)),
        decode_utf8(converted_file(data)) == converted(decode_utf8(data)),
{
    encode_utf8_valid_utf8(converted(decode_utf8(data)));
    encode_utf8_decode_utf8(converted(decode_utf8(data)));
}

} // verus!
