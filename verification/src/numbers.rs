//! Texts that stand for numbers.

use vstd::prelude::*;

use crate::text::chars_of;

verus! {

/// Whether a character is a decimal digit.
pub open spec fn is_digit(c: char) -> bool {
    '0' <= c && c <= '9'
}

/// How many digits a text starts with.
pub open spec fn digit_count(s: Seq<char>) -> nat
    decreases s.len(),
{
    if s.len() == 0 || !is_digit(s[0]) {
        0
    } else {
        1 + digit_count(s.drop_first())
    }
}

/// Whether a text is one or more digits.
pub open spec fn is_digits(s: Seq<char>) -> bool {
    s.len() > 0 && digit_count(s) == s.len()
}

/// A text without the sign it may start with.
pub open spec fn without_sign(s: Seq<char>) -> Seq<char> {
    if s.len() > 0 && (s[0] == '+' || s[0] == '-') {
        s.drop_first()
    } else {
        s
    }
}

/// Whether a text is an exponent, or nothing at all.
pub open spec fn is_exponent(s: Seq<char>) -> bool {
    s.len() == 0 || ((s[0] == 'e' || s[0] == 'E') && is_digits(without_sign(s.drop_first())))
}

/// Whether a text is a decimal number without a sign: digits with at most one
/// point among, before or after them, and an exponent at will.
pub open spec fn is_decimal(s: Seq<char>) -> bool {
    let whole = digit_count(s);
    let rest = s.skip(whole as int);
    if rest.len() > 0 && rest[0] == '.' {
        let after = rest.drop_first();
        let part = digit_count(after);
        whole + part > 0 && is_exponent(after.skip(part as int))
    } else {
        whole > 0 && is_exponent(rest)
    }
}

/// Whether a text is a word, given in small and in capital letters, with each
/// letter small or capital.
pub open spec fn is_word(s: Seq<char>, small: Seq<char>, capital: Seq<char>) -> bool {
    &&& s.len() == small.len()
    &&& forall|i: int|
        0 <= i < s.len() ==> (#[trigger] s[i]) == small[i] || s[i] == capital[i]
}

/// Whether a text is a floating-point number: a decimal number, an infinity or
/// not-a-number, with a sign at will.
pub open spec fn is_number(s: Seq<char>) -> bool {
    let body = without_sign(s);
    ||| is_decimal(body)
    ||| is_word(body, "inf"@, "INF"@)
    ||| is_word(body, "infinity"@, "INFINITY"@)
    ||| is_word(body, "nan"@, "NAN"@)
}

/// Whether a text is a timestamp: a whole number, negative at will.
pub open spec fn is_timestamp(s: Seq<char>) -> bool {
    if s.len() > 0 && s[0] == '-' {
        is_digits(s.drop_first())
    } else {
        is_digits(s)
    }
}

fn digits_to(s: &Vec<char>, from: usize) -> (to: usize)
    requires
        from <= s@.len(),
    ensures
        from <= to <= s@.len(),
        to - from == digit_count(s@.skip(from as int)),
{
    let mut to: usize = from;
    while to < s.len() && '0' <= s[to] && s[to] <= '9'
        invariant
            from <= to <= s@.len(),
            digit_count(s@.skip(from as int)) == to - from + digit_count(s@.skip(to as int)),
        decreases s@.len() - to,
    {
        assert(s@.skip(to as int).drop_first() =~= s@.skip(to + 1));
        to += 1;
    }
    to
}

fn all_digits(s: &Vec<char>, from: usize) -> (r: bool)
    requires
        from <= s@.len(),
    ensures
        r == is_digits(s@.skip(from as int)),
{
    let to = digits_to(s, from);
    from < s.len() && to == s.len()
}

fn after_sign(s: &Vec<char>, from: usize) -> (to: usize)
    requires
        from <= s@.len(),
    ensures
        from <= to <= s@.len(),
        s@.skip(to as int) == without_sign(s@.skip(from as int)),
{
    if from < s.len() && (s[from] == '+' || s[from] == '-') {
        assert(s@.skip(from as int).drop_first() =~= s@.skip(from + 1));
        from + 1
    } else {
        from
    }
}

fn exponent_at(s: &Vec<char>, from: usize) -> (r: bool)
    requires
        from <= s@.len(),
    ensures
        r == is_exponent(s@.skip(from as int)),
{
    if from == s.len() {
        return true;
    }
    if s[from] != 'e' && s[from] != 'E' {
        return false;
    }
    assert(s@.skip(from as int).drop_first() =~= s@.skip(from + 1));
    let digits = after_sign(s, from + 1);
    all_digits(s, digits)
}

fn decimal_at(s: &Vec<char>, from: usize) -> (r: bool)
    requires
        from <= s@.len(),
    ensures
        r == is_decimal(s@.skip(from as int)),
{
    let to = digits_to(s, from);
    let ghost body = s@.skip(from as int);
    assert(body.skip(digit_count(body) as int) =~= s@.skip(to as int));
    if to < s.len() && s[to] == '.' {
        assert(s@.skip(to as int).drop_first() =~= s@.skip(to + 1));
        let end = digits_to(s, to + 1);
        let ghost after = s@.skip(to + 1);
        assert(after.skip(digit_count(after) as int) =~= s@.skip(end as int));
        (from < to || to + 1 < end) && exponent_at(s, end)
    } else {
        from < to && exponent_at(s, to)
    }
}

fn word_at(s: &Vec<char>, from: usize, small: &str, capital: &str) -> (r: bool)
    requires
        from <= s@.len(),
        small@.len() == capital@.len(),
    ensures
        r == is_word(s@.skip(from as int), small@, capital@),
{
    let lower = chars_of(small);
    let upper = chars_of(capital);
    let ghost body = s@.skip(from as int);
    let size: usize = s.len();
    if size - from != lower.len() {
        return false;
    }
    let mut i: usize = 0;
    while i < lower.len()
        invariant
            lower@ == small@,
            upper@ == capital@,
            body == s@.skip(from as int),
            body.len() == lower@.len() == upper@.len(),
            from + lower@.len() == size == s@.len(),
            i <= lower@.len(),
            forall|k: int|
                0 <= k < i ==> (#[trigger] body[k]) == lower@[k] || body[k] == upper@[k],
        decreases lower@.len() - i,
    {
        assert(body[i as int] == s@[from + i]);
        if s[from + i] != lower[i] && s[from + i] != upper[i] {
            return false;
        }
        i += 1;
    }
    true
}

/// Whether a text is a floating-point number.
pub fn number_text(text: &str) -> (r: bool)
    ensures
        r == is_number(text@),
{
    let s = chars_of(text);
    assert(s@.skip(0) =~= text@);
    let body = after_sign(&s, 0);
    proof {
        reveal_strlit("inf");
        reveal_strlit("INF");
        reveal_strlit("infinity");
        reveal_strlit("INFINITY");
        reveal_strlit("nan");
        reveal_strlit("NAN");
    }
    decimal_at(&s, body) || word_at(&s, body, "inf", "INF") || word_at(
        &s,
        body,
        "infinity",
        "INFINITY",
    ) || word_at(&s, body, "nan", "NAN")
}

/// Whether a text is a timestamp.
pub fn timestamp_text(text: &str) -> (r: bool)
    ensures
        r == is_timestamp(text@),
{
    let s = chars_of(text);
    if s.len() > 0 && s[0] == '-' {
        assert(s@.skip(1) =~= text@.drop_first());
        all_digits(&s, 1)
    } else {
        assert(s@.skip(0) =~= text@);
        all_digits(&s, 0)
    }
}

proof fn lemma_all_digits(s: Seq<char>)
    requires
        digit_count(s) == s.len(),
    ensures
        forall|i: int| 0 <= i < s.len() ==> is_digit(#[trigger] s[i]),
    decreases s.len(),
{
    if s.len() > 0 {
        lemma_digit_count_bounded(s.drop_first());
        lemma_all_digits(s.drop_first());
        assert forall|i: int| 0 <= i < s.len() implies is_digit(#[trigger] s[i]) by {
            if i > 0 {
                assert(s.drop_first()[i - 1] == s[i]);
            }
        }
    }
}

proof fn lemma_digit_count_bounded(s: Seq<char>)
    ensures
        digit_count(s) <= s.len(),
    decreases s.len(),
{
    if s.len() > 0 {
        lemma_digit_count_bounded(s.drop_first());
    }
}

proof fn lemma_digits_counted(s: Seq<char>, rest: Seq<char>)
    requires
        forall|i: int| 0 <= i < s.len() ==> '0' <= #[trigger] s[i] && s[i] <= '9',
        rest.len() == 0 || !is_digit(rest[0]),
    ensures
        digit_count(s + rest) == s.len(),
    decreases s.len(),
{
    if s.len() > 0 {
        assert((s + rest).drop_first() =~= s.drop_first() + rest);
        assert forall|i: int| 0 <= i < s.drop_first().len() implies '0'
            <= #[trigger] s.drop_first()[i] && s.drop_first()[i] <= '9' by {
            assert(s.drop_first()[i] == s[i + 1]);
        }
        lemma_digits_counted(s.drop_first(), rest);
        assert((s + rest)[0] == s[0]);
    } else {
        assert(s + rest =~= rest);
    }
}

/// One or more digits are a number and a timestamp; so they are behind a minus
/// sign.
pub proof fn law_digits_are_numbers(digits: Seq<char>)
    requires
        digits.len() > 0,
        forall|i: int| 0 <= i < digits.len() ==> '0' <= #[trigger] digits[i] && digits[i] <= '9',
    ensures
        is_number(digits),
        is_timestamp(digits),
        is_number(seq!['-'] + digits),
        is_timestamp(seq!['-'] + digits),
        is_number(seq!['+'] + digits),
        !is_timestamp(seq!['+'] + digits),
{
    lemma_digits_counted(digits, seq![]);
    assert(digits + Seq::<char>::empty() =~= digits);
    assert('0' <= digits[0]);
    assert(digits.skip(digits.len() as int) =~= seq![]);
    assert((seq!['-'] + digits).drop_first() =~= digits);
    assert((seq!['+'] + digits).drop_first() =~= digits);
    assert(is_decimal(digits));
    assert(!is_digit('+'));
}

/// Digits, a point and digits are a number, where there is a digit on either
/// side of the point; they are no timestamp.
pub proof fn law_fractions_are_numbers(whole: Seq<char>, part: Seq<char>)
    requires
        whole.len() + part.len() > 0,
        forall|i: int| 0 <= i < whole.len() ==> '0' <= #[trigger] whole[i] && whole[i] <= '9',
        forall|i: int| 0 <= i < part.len() ==> '0' <= #[trigger] part[i] && part[i] <= '9',
    ensures
        is_number(whole + seq!['.'] + part),
        !is_timestamp(whole + seq!['.'] + part),
{
    let text = whole + seq!['.'] + part;
    let rest = seq!['.'] + part;
    assert(text =~= whole + rest);
    lemma_digits_counted(whole, rest);
    assert(text.skip(whole.len() as int) =~= rest);
    assert(rest.drop_first() =~= part);
    lemma_digits_counted(part, seq![]);
    assert(part + Seq::<char>::empty() =~= part);
    assert(part.skip(part.len() as int) =~= seq![]);
    if whole.len() > 0 {
        assert('0' <= whole[0] && text[0] == whole[0]);
    }
    assert(is_decimal(text));
    assert(without_sign(text) == text);
    if is_timestamp(text) {
        lemma_all_digits(text);
        assert(is_digit(text[whole.len() as int]));
    }
}

/// A timestamp is a number without blanks.
pub proof fn law_timestamps_are_numbers(text: Seq<char>)
    requires
        is_timestamp(text),
    ensures
        text.len() > 0,
        is_number(text),
        forall|i: int| 0 <= i < text.len() ==> #[trigger] text[i] != ' ' && text[i] != '\t',
{
    let digits = if text[0] == '-' {
        text.drop_first()
    } else {
        text
    };
    lemma_all_digits(digits);
    law_digits_are_numbers(digits);
    if text[0] == '-' {
        assert(text =~= seq!['-'] + digits);
        assert forall|i: int| 0 <= i < text.len() implies #[trigger] text[i] != ' ' && text[i]
            != '\t' by {
            if i > 0 {
                assert(is_digit(digits[i - 1]));
            }
        }
    }
}

/// A number has at least one character, and its first is a sign, a digit, a
/// point or the first letter of `inf` or `nan`.
pub proof fn law_numbers_start_as_numbers(text: Seq<char>)
    requires
        is_number(text),
    ensures
        text.len() > 0,
        ({
            let c = text[0];
            c == '+' || c == '-' || c == '.' || ('0' <= c && c <= '9') || c == 'i' || c == 'I' || c
                == 'n' || c == 'N'
        }),
{
    reveal_strlit("inf");
    reveal_strlit("INF");
    reveal_strlit("infinity");
    reveal_strlit("INFINITY");
    reveal_strlit("nan");
    reveal_strlit("NAN");
    let body = without_sign(text);
    if body.len() == 0 {
        assert(body.skip(0) =~= body);
    } else {
        assert(body.skip(0) =~= body);
        if is_word(body, "inf"@, "INF"@) || is_word(body, "infinity"@, "INFINITY"@) || is_word(
            body,
            "nan"@,
            "NAN"@,
        ) {
            assert(body[0] == body[0]);
        }
    }
}

} // verus!
