//! What holds of texts and their encodings.

use vstd::prelude::*;
use vstd::utf8::char_is_scalar;
use crate::bytes::lemma_first_index;
use crate::text::{
    ascii_lower, crlf, decimal, digits_value, is_digit, is_space, joined, lines, number_of,
    only_digits, same_ignoring_case, trim_back, trim_front, trimmed, two_wide, unsigned_part, utf16,
    utf16_char,
};

verus! {

/// A character in UTF-16 is its code in one little-endian unit, or a surrogate
/// pair from which its code can be computed.
pub proof fn law_utf16_of_a_character(c: char)
    ensures
        ({
            let b = utf16(seq![c]);
            let v = c as int;
            if v < 0x10000 {
                b.len() == 2 && b[0] + 256 * b[1] == v
            } else {
                let high = b[0] + 256 * b[1];
                let low = b[2] + 256 * b[3];
                &&& b.len() == 4
                &&& 0xd800 <= high < 0xdc00
                &&& 0xdc00 <= low < 0xe000
                &&& v == 0x10000 + (high - 0xd800) * 1024 + (low - 0xdc00)
            }
        }),
{
    char_is_scalar(c);
    assert(seq![c].drop_last() =~= Seq::<char>::empty());
    assert(utf16(Seq::<char>::empty()) == Seq::<u8>::empty());
    assert(utf16(seq![c]) =~= utf16_char(c));
}

/// A text in UTF-16 is the encoding of its parts, one after the other.
pub proof fn law_utf16_in_parts(a: Seq<char>, b: Seq<char>)
    ensures
        utf16(a + b) == utf16(a) + utf16(b),
    decreases b.len(),
{
    if b.len() == 0 {
        assert(a + b =~= a);
        assert(utf16(a) + utf16(b) =~= utf16(a));
    } else {
        assert((a + b).drop_last() =~= a + b.drop_last());
        law_utf16_in_parts(a, b.drop_last());
        assert(utf16(a + b) =~= utf16(a) + utf16(b));
    }
}

/// The bytes of a text in UTF-16 determine the text.
pub proof fn law_utf16_determines_the_text(a: Seq<char>, b: Seq<char>)
    requires
        utf16(a) == utf16(b),
    ensures
        a == b,
    decreases a.len(),
{
    if a.len() > 0 {
        let (x, s) = (a[0], a.skip(1));
        law_utf16_of_a_character(x);
        law_utf16_in_parts(seq![x], s);
        assert(a =~= seq![x] + s);
        char_is_scalar(x);
    }
    if b.len() > 0 {
        let (y, t) = (b[0], b.skip(1));
        law_utf16_of_a_character(y);
        law_utf16_in_parts(seq![y], t);
        assert(b =~= seq![y] + t);
        char_is_scalar(y);
    }
    if a.len() > 0 && b.len() > 0 {
        let (x, s) = (a[0], a.skip(1));
        let (y, t) = (b[0], b.skip(1));
        let all = utf16(a);
        let n = utf16(seq![x]).len() as int;
        let m = utf16(seq![y]).len() as int;
        assert(all.take(n) =~= utf16(seq![x]));
        assert(all.take(m) =~= utf16(seq![y]));
        assert(all[0] == utf16(seq![x])[0] && all[1] == utf16(seq![x])[1]);
        assert(all[0] == utf16(seq![y])[0] && all[1] == utf16(seq![y])[1]);
        assert(n == m);
        assert(x as int == y as int);
        assert(all.skip(n) =~= utf16(s));
        assert(all.skip(m) =~= utf16(t));
        law_utf16_determines_the_text(s, t);
    } else {
        assert(utf16(Seq::<char>::empty()).len() == 0);
        if a.len() == 0 {
            assert(a =~= Seq::<char>::empty());
        } else {
            assert(b =~= Seq::<char>::empty());
            assert(utf16(a).len() > 0);
        }
        if b.len() > 0 {
            assert(utf16(b).len() > 0);
        }
        assert(a =~= b);
    }
}

/// A line feed becomes a carriage return and a line feed, any other character
/// stays, and a text is converted character by character.
pub proof fn law_crlf_in_parts(a: Seq<char>, b: Seq<char>, c: char)
    ensures
        crlf(a + b) == crlf(a) + crlf(b),
        crlf(seq![c]) == if c as int == 10 {
            seq![13u8 as char, 10u8 as char]
        } else {
            seq![c]
        },
    decreases b.len(),
{
    assert(seq![c].drop_last() =~= Seq::<char>::empty());
    assert(crlf(Seq::<char>::empty()) == Seq::<char>::empty());
    assert(crlf(seq![c]) =~= if c as int == 10 {
        seq![13u8 as char, 10u8 as char]
    } else {
        seq![c]
    });
    if b.len() == 0 {
        assert(a + b =~= a);
        assert(crlf(a) + crlf(b) =~= crlf(a));
    } else {
        assert((a + b).drop_last() =~= a + b.drop_last());
        law_crlf_in_parts(a, b.drop_last(), c);
        assert(crlf(a + b) =~= crlf(a) + crlf(b));
    }
}

/// Two texts are equal up to case exactly when they have the same length and at
/// each place the same character, or the same ASCII letter in the other case.
pub proof fn law_case_of_ascii_letters(a: Seq<char>, b: Seq<char>)
    ensures
        same_ignoring_case(a, b) <==> a.len() == b.len() && forall|i: int|
            0 <= i < a.len() ==> {
                let (x, y) = ((#[trigger] a[i]) as int, b[i] as int);
                ||| x == y
                ||| 65 <= x <= 90 && y == x + 32
                ||| 97 <= x <= 122 && y == x - 32
            },
{
    assert forall|x: char, y: char|
        #![trigger ascii_lower(x), ascii_lower(y)]
        ascii_lower(x) == ascii_lower(y) <==> {
            ||| x as int == y as int
            ||| 65 <= x as int <= 90 && y as int == x as int + 32
            ||| 97 <= x as int <= 122 && y as int == x as int - 32
        } by {
        char_is_scalar(x);
        char_is_scalar(y);
    }
    if a.len() == b.len() {
        assert forall|i: int| 0 <= i < a.len() implies (ascii_lower(#[trigger] a[i])
            == ascii_lower(b[i]) <==> {
            ||| a[i] as int == b[i] as int
            ||| 65 <= a[i] as int <= 90 && b[i] as int == a[i] as int + 32
            ||| 97 <= a[i] as int <= 122 && b[i] as int == a[i] as int - 32
        }) by {}
    }
}

proof fn lemma_trim_front(s: Seq<char>)
    ensures
        exists|i: int|
            0 <= i <= s.len() && trim_front(s) == #[trigger] s.skip(i) && (forall|j: int|
                0 <= j < i ==> is_space(#[trigger] s[j])) && (i < s.len() ==> !is_space(s[i])),
    decreases s.len(),
{
    if s.len() > 0 && is_space(s[0]) {
        let rest = s.skip(1);
        lemma_trim_front(rest);
        let k = choose|i: int|
            0 <= i <= rest.len() && trim_front(rest) == #[trigger] rest.skip(i) && (forall|j: int|
                0 <= j < i ==> is_space(#[trigger] rest[j])) && (i < rest.len() ==> !is_space(
                rest[i],
            ));
        assert(s.skip(k + 1) =~= rest.skip(k));
        assert forall|j: int| 0 <= j < k + 1 implies is_space(#[trigger] s[j]) by {
            if j > 0 {
                assert(rest[j - 1] == s[j]);
            }
        }
    } else {
        assert(s.skip(0) =~= s);
    }
}

proof fn lemma_trim_back(s: Seq<char>)
    ensures
        exists|i: int|
            0 <= i <= s.len() && trim_back(s) == #[trigger] s.take(i) && (forall|j: int|
                i <= j < s.len() ==> is_space(#[trigger] s[j])) && (i > 0 ==> !is_space(s[i - 1])),
    decreases s.len(),
{
    if s.len() > 0 && is_space(s.last()) {
        let rest = s.drop_last();
        lemma_trim_back(rest);
        let k = choose|i: int|
            0 <= i <= rest.len() && trim_back(rest) == #[trigger] rest.take(i) && (forall|j: int|
                i <= j < rest.len() ==> is_space(#[trigger] rest[j])) && (i > 0 ==> !is_space(
                rest[i - 1],
            ));
        assert(s.take(k) =~= rest.take(k));
        assert forall|j: int| k <= j < s.len() implies is_space(#[trigger] s[j]) by {
            if j < s.len() - 1 {
                assert(rest[j] == s[j]);
            }
        }
    } else {
        assert(s.take(s.len() as int) =~= s);
    }
}

/// Trimming takes white space off both ends and nothing else: the text is the
/// trimmed text with white space in front and behind, and the trimmed text
/// neither begins nor ends with white space.
pub proof fn law_trimming_takes_white_space_off(s: Seq<char>)
    ensures
        exists|i: int, j: int|
            0 <= i <= j <= s.len() && trimmed(s) == #[trigger] s.subrange(i, j) && (forall|k: int|
                0 <= k < i || j <= k < s.len() ==> is_space(#[trigger] s[k])),
        trimmed(s).len() > 0 ==> !is_space(trimmed(s)[0]) && !is_space(trimmed(s).last()),
{
    lemma_trim_front(s);
    let front = trim_front(s);
    let i = choose|i: int|
        0 <= i <= s.len() && front == #[trigger] s.skip(i) && (forall|j: int|
            0 <= j < i ==> is_space(#[trigger] s[j])) && (i < s.len() ==> !is_space(s[i]));
    lemma_trim_back(front);
    let n = choose|n: int|
        0 <= n <= front.len() && trim_back(front) == #[trigger] front.take(n) && (forall|j: int|
            n <= j < front.len() ==> is_space(#[trigger] front[j])) && (n > 0 ==> !is_space(
            front[n - 1],
        ));
    assert(s.subrange(i, i + n) =~= front.take(n));
    assert forall|k: int| 0 <= k < i || i + n <= k < s.len() implies is_space(#[trigger] s[k]) by {
        if k >= i {
            assert(front[k - i] == s[k]);
        }
    }
}

/// A text up to its first line feed is its first line, without the one carriage
/// return that may stand before the line feed; the other lines are those of the
/// rest. A text without a line feed is one line, and an empty text has none.
pub proof fn law_lines_end_with_line_feeds(line: Seq<char>, rest: Seq<char>)
    requires
        forall|i: int| 0 <= i < line.len() ==> (#[trigger] line[i]) as int != 10,
    ensures
        lines(line + seq![10u8 as char] + rest) == seq![
            if line.len() > 0 && line[line.len() - 1] as int == 13 {
                line.take(line.len() - 1)
            } else {
                line
            },
        ] + lines(rest),
        lines(line) == if line.len() == 0 {
            Seq::<Seq<char>>::empty()
        } else {
            seq![line]
        },
{
    let s = line + seq!['\n'] + rest;
    let n = line.len() as int;
    assert(10u8 as char == '\n');
    assert forall|j: int| 0 <= j < n implies s[j] != '\n' by {
        assert(s[j] == line[j]);
    }
    lemma_first_index(s, '\n', n);
    assert(s.take(n) =~= line);
    assert(s.skip(n + 1) =~= rest);
    assert forall|j: int| 0 <= j < n implies line[j] != '\n' by {
        assert(line[j] as int != 10);
    }
    lemma_first_index(line, '\n', n);
    if n > 0 && line.last() as int == 13 {
        assert(line.last() == '\r');
    }
}

/// Joining puts the separator between the parts, once between each two.
pub proof fn law_joining_in_parts(a: Seq<Seq<char>>, b: Seq<Seq<char>>, one: Seq<char>, sep: Seq<char>)
    ensures
        joined(Seq::empty(), sep) == Seq::<char>::empty(),
        joined(seq![one], sep) == one,
        a.len() > 0 && b.len() > 0 ==> joined(a + b, sep) == joined(a, sep) + sep + joined(b, sep),
    decreases b.len(),
{
    if a.len() > 0 && b.len() > 0 {
        assert((a + b).last() == b.last());
        assert((a + b).drop_last() =~= a + b.drop_last());
        if b.len() == 1 {
            assert(a + b.drop_last() =~= a);
        } else {
            law_joining_in_parts(a, b.drop_last(), one, sep);
            assert(joined(a, sep) + sep + joined(b.drop_last(), sep) + sep + b.last() =~= joined(
                a,
                sep,
            ) + sep + (joined(b.drop_last(), sep) + sep + b.last()));
        }
    }
}

/// Decimal notation: a number below ten is its digit, and one more digit behind a
/// number other than zero makes ten times that number and the digit. Two wide, a
/// number below ten has a zero in front, and a larger one is as it is.
pub proof fn law_decimal_notation(n: nat, d: nat)
    requires
        d < 10,
    ensures
        decimal(d) == seq![(48 + d) as char],
        n > 0 ==> decimal(n * 10 + d) == decimal(n).push((48 + d) as char),
        two_wide(d as int) == seq![48u8 as char, (48 + d) as char],
        n > 0 ==> two_wide((n * 10 + d) as int) == decimal(n * 10 + d),
        n > 0 ==> two_wide(-(n as int)) == seq![45u8 as char] + decimal(n),
{
    assert((n * 10 + d) / 10 == n && (n * 10 + d) % 10 == d);
    assert(two_wide(d as int) =~= seq![48u8 as char, (48 + d) as char]);
}

proof fn lemma_decimal_value(n: nat)
    ensures
        decimal(n).len() > 0,
        digits_value(decimal(n)) == n,
        forall|i: int| 0 <= i < decimal(n).len() ==> is_digit(#[trigger] decimal(n)[i]),
        n > 0 ==> decimal(n)[0] as int != 48,
    decreases n,
{
    let s = decimal(n);
    if n < 10 {
        assert(s.drop_last() =~= Seq::<char>::empty());
        assert(digits_value(s.drop_last()) == 0);
    } else {
        lemma_decimal_value(n / 10);
        assert(s.drop_last() =~= decimal(n / 10));
        assert forall|i: int| 0 <= i < s.len() implies is_digit(#[trigger] s[i]) by {
            if i < s.len() - 1 {
                assert(s[i] == decimal(n / 10)[i]);
            }
        }
    }
}

proof fn lemma_leading_zero(s: Seq<char>)
    ensures
        digits_value(seq![48u8 as char] + s) == digits_value(s),
    decreases s.len(),
{
    let t = seq![48u8 as char] + s;
    if s.len() == 0 {
        assert(t.drop_last() =~= Seq::<char>::empty());
        assert(digits_value(t.drop_last()) == 0);
    } else {
        assert(t.drop_last() =~= seq![48u8 as char] + s.drop_last());
        lemma_leading_zero(s.drop_last());
    }
}

/// Numbers are read as they are written: a number in decimal notation is read
/// back, a plus sign and zeros in front make no difference, and a text with
/// anything but digits behind its sign is no number.
pub proof fn law_numbers_are_read_back(n: u32, s: Seq<char>)
    ensures
        number_of(decimal(n as nat)) == Some(n),
        number_of(seq![43u8 as char] + decimal(n as nat)) == Some(n),
        s.len() > 0 && 48 <= s[0] as int <= 57 ==> number_of(seq![48u8 as char] + s) == number_of(s),
        s.len() == 0 ==> number_of(s) is None,
        (exists|i: int|
            0 < i < s.len() && !(48 <= (#[trigger] s[i]) as int <= 57)) ==> number_of(s) is None,
        s.len() > 0 && !(48 <= s[0] as int <= 57) && s[0] as int != 43 ==> number_of(s) is None,
        s.len() == 1 && s[0] as int == 43 ==> number_of(s) is None,
{
    let d = decimal(n as nat);
    lemma_decimal_value(n as nat);
    assert(is_digit(d[0]));
    assert(unsigned_part(d) == d);
    let plus = seq![43u8 as char] + d;
    assert(plus.skip(1) =~= d);
    assert(unsigned_part(plus) == d);
    if s.len() > 0 && 48 <= s[0] as int <= 57 {
        let t = seq![48u8 as char] + s;
        assert(is_digit(s[0]));
        assert(unsigned_part(s) == s && unsigned_part(t) == t);
        lemma_leading_zero(s);
        assert(t.skip(1) =~= s);
        assert forall|i: int| 0 <= i < s.len() implies s[i] == #[trigger] t[i + 1] by {}
        if forall|i: int| 0 <= i < s.len() ==> is_digit(#[trigger] s[i]) {
            assert forall|i: int| 0 <= i < t.len() implies is_digit(#[trigger] t[i]) by {
                if i > 0 {
                    assert(is_digit(s[i - 1]));
                }
            }
        } else {
            let k = choose|i: int| 0 <= i < s.len() && !is_digit(#[trigger] s[i]);
            assert(!is_digit(t[k + 1]));
        }
    }
    if exists|i: int| 0 < i < s.len() && !(48 <= (#[trigger] s[i]) as int <= 57) {
        let k = choose|i: int| 0 < i < s.len() && !(48 <= (#[trigger] s[i]) as int <= 57);
        if s[0] == '+' {
            assert(!is_digit(unsigned_part(s)[k - 1]));
        } else {
            assert(!is_digit(unsigned_part(s)[k]));
        }
    }
    if s.len() > 0 && !(48 <= s[0] as int <= 57) && s[0] as int != 43 {
        assert(!is_digit(unsigned_part(s)[0]));
    }
}

/// Every number that is read is that of its digits: one more digit makes ten
/// times the number and the digit, as long as 32 bits hold it.
pub proof fn law_numbers_grow_digit_by_digit(s: Seq<char>, d: nat)
    requires
        s.len() > 0,
        d < 10,
        s.len() > 1 || s[0] as int != 43,
    ensures
        match number_of(s) {
            Some(n) => number_of(s.push((48 + d) as char)) == if n * 10 + d <= 4294967295 {
                Some((n * 10 + d) as u32)
            } else {
                None::<u32>
            },
            None => number_of(s.push((48 + d) as char)) is None,
        },
{
    let c = (48 + d) as char;
    let t = s.push(c);
    let u = unsigned_part(s);
    let v = unsigned_part(t);
    assert(v =~= u.push(c));
    assert(v.drop_last() =~= u);
    assert(digits_value(v) == digits_value(u) * 10 + d);
    assert forall|i: int| 0 <= i < u.len() implies u[i] == #[trigger] v[i] by {}
    if forall|i: int| 0 <= i < u.len() ==> is_digit(#[trigger] u[i]) {
        assert forall|i: int| 0 <= i < v.len() implies is_digit(#[trigger] v[i]) by {
            if i < u.len() {
                assert(is_digit(u[i]));
            }
        }
    } else {
        let k = choose|i: int| 0 <= i < u.len() && !is_digit(#[trigger] u[i]);
        assert(!is_digit(v[k]));
    }
}

/// The digits of a text are those of its parts, one after the other.
pub proof fn law_digits_in_parts(a: Seq<char>, b: Seq<char>, c: char)
    ensures
        only_digits(a + b) == only_digits(a) + only_digits(b),
        only_digits(seq![c]) == if 48 <= c as int <= 57 {
            seq![c]
        } else {
            Seq::<char>::empty()
        },
    decreases b.len(),
{
    assert(seq![c].drop_last() =~= Seq::<char>::empty());
    assert(only_digits(Seq::<char>::empty()) == Seq::<char>::empty());
    assert(only_digits(seq![c]) =~= if 48 <= c as int <= 57 {
        seq![c]
    } else {
        Seq::<char>::empty()
    });
    if b.len() == 0 {
        assert(a + b =~= a);
        assert(only_digits(a) + only_digits(b) =~= only_digits(a));
    } else {
        assert((a + b).drop_last() =~= a + b.drop_last());
        law_digits_in_parts(a, b.drop_last(), c);
        assert(only_digits(a + b) =~= only_digits(a) + only_digits(b));
    }
}

} // verus!
