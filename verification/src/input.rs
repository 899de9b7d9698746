//! Reading what the user typed: yes-or-no answers and counts.

use vstd::prelude::*;

use crate::text::chars_of;

verus! {

/// Whether `c` is a decimal digit.
pub open spec fn is_digit(c: char) -> bool {
    '0' <= c <= '9'
}

/// The value of the decimal digits `s`.
pub open spec fn digits_value(s: Seq<char>) -> nat
    decreases s.len(),
{
    if s.len() == 0 {
        0
    } else {
        digits_value(s.drop_last()) * 10 + ((s.last() as int) - ('0' as int)) as nat
    }
}

/// Whether every character of `s` is a decimal digit.
pub open spec fn all_digits(s: Seq<char>) -> bool {
    forall|i: int| 0 <= i < s.len() ==> #[trigger] is_digit(s[i])
}

/// The digits of a count: the text after an optional leading `+`.
pub open spec fn count_digits(text: Seq<char>) -> Seq<char> {
    if text.len() > 0 && text[0] == '+' {
        text.drop_first()
    } else {
        text
    }
}

/// The number `text` spells: an optional `+`, then one or more decimal digits (`None` for any
/// other text).
pub open spec fn spec_parse_count(text: Seq<char>) -> Option<nat> {
    let body = count_digits(text);
    if body.len() > 0 && all_digits(body) {
        Some(digits_value(body))
    } else {
        None
    }
}

/// Whether `c` is `lower` or its upper case `upper`.
pub open spec fn is_letter(c: char, lower: char, upper: char) -> bool {
    c == lower || c == upper
}

/// Whether an answer means yes: `y` or `yes`, in any mix of upper and lower case.
pub open spec fn spec_is_yes(answer: Seq<char>) -> bool {
    ||| answer.len() == 1 && is_letter(answer[0], 'y', 'Y')
    ||| answer.len() == 3 && is_letter(answer[0], 'y', 'Y') && is_letter(answer[1], 'e', 'E')
        && is_letter(answer[2], 's', 'S')
}

/// Whether the answer `answer` (already trimmed) to a yes-or-no question is yes: `y` or `yes`,
/// in any case; any other answer is no.
pub fn is_yes(answer: &str) -> (yes: bool)
    ensures
        yes == spec_is_yes(answer@),
{
    let chars = chars_of(answer);
    if chars.len() == 1 {
        chars[0] == 'y' || chars[0] == 'Y'
    } else if chars.len() == 3 {
        (chars[0] == 'y' || chars[0] == 'Y') && (chars[1] == 'e' || chars[1] == 'E') && (chars[2]
            == 's' || chars[2] == 'S')
    } else {
        false
    }
}

/// The count `text` spells, as `str::parse::<usize>` reads it: an optional `+`, then decimal
/// digits. `None` for any other text, and where the number is too large for a `usize`.
pub fn parse_count(text: &str) -> (count: Option<usize>)
    ensures
        match count {
            Some(n) => spec_parse_count(text@) == Some(n as nat),
            None => spec_parse_count(text@) is None || spec_parse_count(text@).unwrap() > usize::MAX,
        },
{
    let chars = chars_of(text);
    let ghost t = text@;
    let start: usize = if chars.len() > 0 && chars[0] == '+' {
        1
    } else {
        0
    };
    let ghost body = count_digits(t);
    assert(body =~= t.skip(start as int));
    if start >= chars.len() {
        return None;
    }
    let mut value: usize = 0;
    let mut i: usize = start;
    while i < chars.len()
        invariant
            start <= i <= chars@.len(),
            chars@ == t,
            t == text@,
            body == count_digits(t),
            body == t.skip(start as int),
            forall|k: int| start <= k < i ==> #[trigger] is_digit(t[k]),
            value == digits_value(t.subrange(start as int, i as int)),
        decreases chars@.len() - i,
    {
        let c = chars[i];
        if !('0' <= c && c <= '9') {
            assert(body[i - start] == t[i as int]);
            assert(!is_digit(body[i - start]));
            return None;
        }
        let d = (c as u32 - '0' as u32) as usize;
        assert(t.subrange(start as int, i + 1).drop_last() =~= t.subrange(start as int, i as int));
        if value > (usize::MAX - d) / 10 {
            proof {
                let pre = t.subrange(start as int, i + 1);
                let rest = t.subrange(i + 1, t.len() as int);
                assert(body =~= pre + rest);
                lemma_digits_value_grows(pre, rest);
                assert(digits_value(pre) == value * 10 + d);
            }
            assert(value * 10 + d > usize::MAX) by (nonlinear_arith)
                requires
                    value > (usize::MAX - d) / 10,
                    d <= 9,
            ;
            return None;
        }
        assert(value * 10 + d <= usize::MAX) by (nonlinear_arith)
            requires
                value <= (usize::MAX - d) / 10,
                d <= 9,
        ;
        value = value * 10 + d;
        i += 1;
    }
    assert(t.subrange(start as int, t.len() as int) =~= body);
    Some(value)
}

/// The value of digits grows with more digits after them.
pub proof fn lemma_digits_value_grows(s: Seq<char>, more: Seq<char>)
    ensures
        digits_value(s + more) >= digits_value(s),
    decreases more.len(),
{
    if more.len() > 0 {
        lemma_digits_value_grows(s, more.drop_last());
        assert((s + more).drop_last() =~= s + more.drop_last());
        let v = digits_value(s + more.drop_last());
        assert(v * 10 >= v) by (nonlinear_arith)
            requires
                v >= 0,
        ;
    }
}

} // verus!
