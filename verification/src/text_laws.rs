//! What holds of texts: numbers, white space and separators.

use vstd::prelude::*;

use crate::text;
use crate::text::NumberError;

verus! {

// ----------------------------------------------------------------- numbers --

/// Whether a text is made of decimal digits alone.
pub open spec fn all_digits(s: Seq<char>) -> bool {
    forall|i: int| 0 <= i < s.len() ==> '0' <= #[trigger] s[i] && s[i] <= '9'
}

proof fn lemma_push_digit(s: Seq<char>, c: char, acc: int, max: int)
    ensures
        text::digits_value(s.push(c), acc, max) == match text::digits_value(s, acc, max) {
            Err(e) => Err::<int, NumberError>(e),
            Ok(v) => if !text::is_digit(c) {
                Err(NumberError::InvalidDigit)
            } else if v * 10 + (c as int - '0' as int) > max {
                Err(NumberError::TooLarge)
            } else {
                Ok(v * 10 + (c as int - '0' as int))
            },
        },
    decreases s.len(),
{
    let t = s.push(c);
    reveal_with_fuel(text::digits_value, 2);
    if s.len() == 0 {
        assert(t.drop_first() =~= Seq::empty());
        assert(t[0] == c);
    } else {
        assert(t[0] == s[0]);
        assert(t.drop_first() =~= s.drop_first().push(c));
        lemma_push_digit(s.drop_first(), c, acc * 10 + (s[0] as int - '0' as int), max);
    }
}

/// The digits of a number are decimal digits, and the first is no zero unless the
/// number is zero.
pub proof fn law_decimal_is_digits(n: nat)
    ensures
        text::decimal(n).len() > 0,
        all_digits(text::decimal(n)),
        n > 0 ==> text::decimal(n)[0] != '0',
        n == 0 ==> text::decimal(n) == seq!['0'],
    decreases n,
{
    let d = text::decimal(n);
    if n < 10 {
        assert(d == seq![text::digit(n as int)]);
        assert(d[0] == (('0' as int) + n) as char);
        assert(d =~= seq![d[0]]);
    } else {
        law_decimal_is_digits(n / 10);
        let head = text::decimal(n / 10);
        let c = text::digit((n % 10) as int);
        assert(d == head.push(c));
        assert forall|i: int| 0 <= i < d.len() implies '0' <= #[trigger] d[i] && d[i] <= '9' by {
            if i < head.len() {
                assert(d[i] == head[i]);
            }
        }
        assert(d[0] == head[0]);
    }
}

proof fn lemma_digits_read_back(n: nat, max: int)
    requires
        0 <= max,
    ensures
        text::digits_value(text::decimal(n), 0, max) == if n <= max {
            Ok::<int, NumberError>(n as int)
        } else {
            Err(NumberError::TooLarge)
        },
    decreases n,
{
    reveal_with_fuel(text::digits_value, 2);
    let d = text::decimal(n);
    if n < 10 {
        assert(d == seq![text::digit(n as int)]);
        assert(d.drop_first() =~= Seq::empty());
        assert(d[0] as int - '0' as int == n);
    } else {
        lemma_digits_read_back(n / 10, max);
        let c = text::digit((n % 10) as int);
        lemma_push_digit(text::decimal(n / 10), c, 0, max);
        assert(c as int - '0' as int == n % 10);
        assert(n == (n / 10) * 10 + n % 10);
    }
}

/// A number reads back as itself, with or without a plus sign before it. One that
/// is over the limit is refused as too large.
pub proof fn law_number_reads_back(n: nat, max: int)
    requires
        0 <= max,
    ensures
        n <= max ==> text::parsed_number(text::decimal(n), max) == Ok::<int, NumberError>(n as int),
        n > max ==> text::parsed_number(text::decimal(n), max) == Err::<int, NumberError>(NumberError::TooLarge),
        text::parsed_number(seq!['+'] + text::decimal(n), max) == text::parsed_number(text::decimal(n), max),
{
    lemma_digits_read_back(n, max);
    law_decimal_is_digits(n);
    let d = text::decimal(n);
    assert('0' <= d[0] && d[0] <= '9');
    let p = seq!['+'] + d;
    assert(p[0] == '+');
    assert(p.drop_first() =~= d);
}

/// Two numbers are written alike only if they are the same.
pub proof fn law_decimal_is_unique(a: nat, b: nat)
    requires
        text::decimal(a) == text::decimal(b),
    ensures
        a == b,
{
    let max = if a < b {
        b as int
    } else {
        a as int
    };
    law_number_reads_back(a, max);
    law_number_reads_back(b, max);
}

proof fn lemma_digits_or_not(s: Seq<char>, acc: int, max: int)
    requires
        0 <= acc <= max,
    ensures
        text::digits_value(s, acc, max) matches Ok(n) ==> all_digits(s) && 0 <= n <= max,
        all_digits(s) ==> !(text::digits_value(s, acc, max) == Err::<int, NumberError>(NumberError::InvalidDigit)),
        text::digits_value(s, acc, max) != Err::<int, NumberError>(NumberError::Empty),
    decreases s.len(),
{
    if s.len() > 0 {
        let next = acc * 10 + (s[0] as int - '0' as int);
        let t = s.drop_first();
        if all_digits(s) {
            assert('0' <= s[0] && s[0] <= '9');
            assert forall|i: int| 0 <= i < t.len() implies '0' <= #[trigger] t[i] && t[i] <= '9' by {
                assert(t[i] == s[i + 1]);
            }
        }
        if text::is_digit(s[0]) && next <= max {
            lemma_digits_or_not(t, next, max);
            if all_digits(t) {
                assert forall|i: int| 0 <= i < s.len() implies '0' <= #[trigger] s[i] && s[i] <= '9' by {
                    if i > 0 {
                        assert(t[i - 1] == s[i]);
                    }
                }
            }
        }
    }
}

/// Only digits are a number, with at most one plus sign before them, and never
/// one over the limit. Nothing at all is refused as empty, digits that are no
/// number are too large for the limit, and the rest is refused for what it holds.
pub proof fn law_only_digits_are_a_number(s: Seq<char>, max: int)
    requires
        0 <= max,
    ensures
        ({
            let r = text::parsed_number(s, max);
            let digits = if s.len() > 0 && s[0] == '+' {
                s.drop_first()
            } else {
                s
            };
            &&& s.len() == 0 <==> r == Err::<int, NumberError>(NumberError::Empty)
            &&& r matches Ok(n) ==> 0 <= n <= max && digits.len() > 0 && all_digits(digits)
            &&& digits.len() > 0 && all_digits(digits) ==> r is Ok || r == Err::<int, NumberError>(
                NumberError::TooLarge,
            )
        }),
{
    if s.len() > 0 {
        lemma_digits_or_not(s, 0, max);
        lemma_digits_or_not(s.drop_first(), 0, max);
    }
    let r = text::parsed_number(s, max);
    if let Err(e) = r {
        assert(e == NumberError::Empty || e == NumberError::InvalidDigit || e == NumberError::TooLarge);
        assert(r == Err::<int, NumberError>(e));
    }
}

// ------------------------------------------------------------- white space --

/// Whether a text is white space alone.
pub open spec fn all_white(s: Seq<char>) -> bool {
    forall|i: int| 0 <= i < s.len() ==> text::is_white(#[trigger] s[i])
}

proof fn lemma_trim_start(s: Seq<char>) -> (n: int)
    ensures
        0 <= n <= s.len(),
        text::trim_start(s) == s.skip(n),
        all_white(s.take(n)),
        n < s.len() ==> !text::is_white(s[n]),
    decreases s.len(),
{
    if s.len() > 0 && text::is_white(s[0]) {
        let t = s.drop_first();
        let k = lemma_trim_start(t);
        assert(t.skip(k) =~= s.skip(k + 1));
        assert forall|i: int| 0 <= i < k + 1 implies text::is_white(#[trigger] s.take(k + 1)[i]) by {
            if i > 0 {
                assert(t.take(k)[i - 1] == s[i]);
            }
        }
        k + 1
    } else {
        assert(s.skip(0) =~= s);
        0
    }
}

proof fn lemma_trim_end(s: Seq<char>) -> (n: int)
    ensures
        0 <= n <= s.len(),
        text::trim_end(s) == s.take(n),
        all_white(s.skip(n)),
        n > 0 ==> !text::is_white(s[n - 1]),
    decreases s.len(),
{
    if s.len() > 0 && text::is_white(s.last()) {
        let t = s.drop_last();
        let k = lemma_trim_end(t);
        assert(t.take(k) =~= s.take(k));
        assert forall|i: int| 0 <= i < s.skip(k).len() implies text::is_white(#[trigger] s.skip(k)[i]) by {
            if i < t.skip(k).len() {
                assert(t.skip(k)[i] == s.skip(k)[i]);
            }
        }
        k
    } else {
        assert(s.take(s.len() as int) =~= s);
        s.len() as int
    }
}

/// Trimming takes white space away from both ends and nothing else, and leaves no
/// white space there.
pub proof fn law_trim_takes_white_space_off_the_ends(s: Seq<char>)
    ensures
        exists|before: Seq<char>, after: Seq<char>|
            #[trigger] (before + text::trim(s) + after) == s && all_white(before) && all_white(after),
        text::trim(s).len() > 0 ==> !text::is_white(text::trim(s)[0]) && !text::is_white(text::trim(s).last()),
{
    let n = lemma_trim_start(s);
    let u = s.skip(n);
    let k = lemma_trim_end(u);
    let before = s.take(n);
    let after = u.skip(k);
    assert(before + text::trim(s) + after =~= s);
    if text::trim(s).len() > 0 {
        assert(text::trim(s)[0] == s[n]);
        assert(text::trim(s).last() == u[k - 1]);
    }
}

/// No printing character of ascii is white space; the blank, the tab and the ends
/// of lines are.
pub proof fn law_printing_characters_are_not_white(c: char)
    ensures
        '!' <= c && c <= '~' ==> !text::is_white(c),
        c == ' ' || c == '\t' || c == '\n' || c == '\r' ==> text::is_white(c),
{
}

/// A text without white space is what it is when trimmed.
pub proof fn law_trim_keeps_the_rest(s: Seq<char>)
    requires
        forall|i: int| 0 <= i < s.len() ==> !text::is_white(#[trigger] s[i]),
    ensures
        text::trim(s) == s,
{
}

// -------------------------------------------------------------- separators --

/// Pieces with a separator between each two.
pub open spec fn joined(pieces: Seq<Seq<char>>, sep: char) -> Seq<char>
    decreases pieces.len(),
{
    if pieces.len() == 0 {
        Seq::empty()
    } else if pieces.len() == 1 {
        pieces[0]
    } else {
        pieces[0].push(sep) + joined(pieces.drop_first(), sep)
    }
}

/// A text that was split reads as before when its pieces are put together again,
/// and no piece holds the separator.
pub proof fn law_split_loses_nothing(s: Seq<char>, sep: char)
    ensures
        text::split(s, sep).len() > 0,
        joined(text::split(s, sep), sep) == s,
        forall|i: int| 0 <= i < text::split(s, sep).len() ==> !(#[trigger] text::split(s, sep)[i]).contains(sep),
    decreases s.len(),
{
    text::lemma_first_at(s, sep);
    let at = text::first_at(s, sep);
    let all = text::split(s, sep);
    if at < s.len() {
        let rest = s.skip(at + 1);
        law_split_loses_nothing(rest, sep);
        let tail = text::split(rest, sep);
        assert(all == seq![s.take(at)] + tail);
        assert(all.drop_first() =~= tail);
        assert(all[0] == s.take(at));
        assert(s.take(at).push(sep) + rest =~= s);
        assert forall|i: int| 0 <= i < all.len() implies !(#[trigger] all[i]).contains(sep) by {
            if i > 0 {
                assert(all[i] == tail[i - 1]);
            }
        }
    } else {
        assert(all =~= seq![s]);
    }
}

/// The last occurrence of a character is one, and none is after it; without any it
/// is before the text.
pub proof fn law_last_occurrence(s: Seq<char>, c: char)
    ensures
        text::last_at(s, c) == -1 <==> !s.contains(c),
        -1 <= text::last_at(s, c) < s.len(),
        text::last_at(s, c) >= 0 ==> s[text::last_at(s, c)] == c,
        forall|i: int| text::last_at(s, c) < i < s.len() ==> #[trigger] s[i] != c,
    decreases s.len(),
{
    if s.len() > 0 && s.last() != c {
        let t = s.drop_last();
        law_last_occurrence(t, c);
        assert forall|i: int| text::last_at(s, c) < i < s.len() implies #[trigger] s[i] != c by {
            if i < t.len() {
                assert(t[i] == s[i]);
            }
        }
        if s.contains(c) {
            let i = s.index_of(c);
            assert(t[i] == c);
        }
    } else if s.len() > 0 {
        assert(s[s.len() - 1] == c);
    }
}

// ------------------------------------------------------------------- order --

/// Texts are in the order of the first character in which they differ, by code
/// point, and a text is before what it begins.
pub proof fn law_texts_are_ordered_by_their_first_difference(a: Seq<char>, b: Seq<char>, k: int)
    requires
        0 <= k <= a.len(),
        k <= b.len(),
        forall|i: int| 0 <= i < k ==> a[i] == #[trigger] b[i],
    ensures
        k < a.len() && k < b.len() && a[k] != b[k] ==> text::precedes(a, b) == ((a[k] as int) < (b[k] as int)),
        k == a.len() && k < b.len() ==> text::precedes(a, b),
        k == b.len() ==> !text::precedes(a, b),
    decreases k,
{
    if k > 0 {
        let x = a.drop_first();
        let y = b.drop_first();
        assert(a[0] == b[0]);
        assert forall|i: int| 0 <= i < k - 1 implies x[i] == #[trigger] y[i] by {
            assert(a[i + 1] == b[i + 1]);
        }
        law_texts_are_ordered_by_their_first_difference(x, y, k - 1);
    }
}

/// What is said of a text that is no number.
pub proof fn law_number_errors_are_spelled_out()
    ensures
        text::number_error_text(NumberError::Empty) == "cannot parse integer from empty string"@,
        text::number_error_text(NumberError::InvalidDigit) == "invalid digit found in string"@,
        text::number_error_text(NumberError::TooLarge) == "number too large to fit in target type"@,
{
}

} // verus!
