//! Integers in decimal digits.
use vstd::prelude::*;
use crate::text::chars_of;

verus! {

/// The digit `d`.
pub open spec fn digit(d: nat) -> char {
    (48 + d) as char
}

/// `n` in decimal, without leading zeros.
pub open spec fn digits(n: nat) -> Seq<char>
    decreases n,
{
    if n < 10 {
        seq![digit(n)]
    } else {
        digits(n / 10).push(digit(n % 10))
    }
}

/// Whether `c` is a decimal digit.
pub open spec fn is_digit(c: char) -> bool {
    '0' <= c && c <= '9'
}

/// Whether `s` holds decimal digits only.
pub open spec fn all_digits(s: Seq<char>) -> bool {
    forall|i: int| 0 <= i < s.len() ==> is_digit(#[trigger] s[i])
}

/// The integer that a run of decimal digits stands for; leading zeros do not matter.
pub open spec fn value(s: Seq<char>) -> nat
    decreases s.len(),
{
    if s.len() == 0 {
        0
    } else {
        value(s.drop_last()) * 10 + (s.last() as nat - 48) as nat
    }
}

/// The integer in `s`: one optional `+`, then at least one digit and nothing but digits, for an
/// integer that 64 bits hold.
pub open spec fn parsed(s: Seq<char>) -> Option<u64> {
    let body = if s.len() > 0 && s[0] == '+' {
        s.skip(1)
    } else {
        s
    };
    if body.len() > 0 && all_digits(body) && value(body) <= u64::MAX {
        Some(value(body) as u64)
    } else {
        None
    }
}

/// Every character that stands for a digit of `n` is a digit, and they stand for `n`.
pub proof fn lemma_digits_stand_for(n: nat)
    ensures
        digits(n).len() > 0,
        all_digits(digits(n)),
        value(digits(n)) == n,
    decreases n,
{
    if n < 10 {
        reveal_with_fuel(value, 2);
        assert(digits(n).drop_last() =~= Seq::empty());
    } else {
        lemma_digits_stand_for(n / 10);
        assert(digits(n).drop_last() =~= digits(n / 10));
    }
}

/// What was written in decimal is read back.
pub proof fn law_decimal_reads_back(n: u64)
    ensures
        parsed(digits(n as nat)) == Some(n),
{
    lemma_digits_stand_for(n as nat);
}

/// Digits that follow make the integer no smaller.
proof fn lemma_value_grows(s: Seq<char>, k: int)
    requires
        0 <= k <= s.len(),
    ensures
        value(s.take(k)) <= value(s),
    decreases s.len() - k,
{
    if k < s.len() {
        lemma_value_grows(s, k + 1);
        assert(s.take(k + 1).drop_last() =~= s.take(k));
    } else {
        assert(s.take(k) =~= s);
    }
}

/// The text of one digit.
fn digit_text(d: u64) -> (text: &'static str)
    requires
        d < 10,
    ensures
        text@ == seq![digit(d as nat)],
{
    proof {
        reveal_strlit("0");
        reveal_strlit("1");
        reveal_strlit("2");
        reveal_strlit("3");
        reveal_strlit("4");
        reveal_strlit("5");
        reveal_strlit("6");
        reveal_strlit("7");
        reveal_strlit("8");
        reveal_strlit("9");
    }
    let text = match d {
        0 => "0",
        1 => "1",
        2 => "2",
        3 => "3",
        4 => "4",
        5 => "5",
        6 => "6",
        7 => "7",
        8 => "8",
        _ => "9",
    };
    assert(text@ =~= seq![digit(d as nat)]);
    text
}

/// `n` in decimal.
pub fn decimal(n: u64) -> (text: String)
    ensures
        text@ == digits(n as nat),
    decreases n,
{
    let mut text = if n >= 10 {
        decimal(n / 10)
    } else {
        String::new()
    };
    text.append(digit_text(n % 10));
    assert(text@ =~= digits(n as nat));
    text
}

/// Reads an integer in decimal.
pub fn parse_u64(s: &str) -> (n: Option<u64>)
    ensures
        n == parsed(s@),
{
    let chars = chars_of(s);
    let start: usize = if chars.len() > 0 && chars[0] == '+' {
        1
    } else {
        0
    };
    let ghost body = s@.skip(start as int);
    proof {
        assert(s@.skip(0) =~= s@);
        assert(body == if s@.len() > 0 && s@[0] == '+' {
            s@.skip(1)
        } else {
            s@
        });
    }
    if start == chars.len() {
        return None;
    }
    let mut n: u64 = 0;
    let mut i: usize = start;
    assert(body.take(0) =~= Seq::empty());
    while i < chars.len()
        invariant
            start <= i <= chars@.len(),
            chars@ == s@,
            body == s@.skip(start as int),
            parsed(s@) == (if body.len() > 0 && all_digits(body) && value(body) <= u64::MAX {
                Some(value(body) as u64)
            } else {
                None
            }),
            all_digits(body.take(i - start)),
            n == value(body.take(i - start)),
        decreases chars@.len() - i,
    {
        let ch: char = chars[i];
        assert(body[i - start] == ch);
        if ch < '0' || ch > '9' {
            assert(!is_digit(body[i - start]));
            return None;
        }
        let d: u64 = (ch as u32 - 48) as u64;
        proof {
            let next = body.take(i - start + 1);
            assert(next.drop_last() =~= body.take(i - start));
            assert(next.last() == ch);
            lemma_value_grows(body, i - start + 1);
            assert(value(next) == n * 10 + d);
            assert forall|j: int| 0 <= j < next.len() implies is_digit(#[trigger] next[j]) by {
                if j < i - start {
                    assert(next[j] == body.take(i - start)[j]);
                }
            }
        }
        if n > (u64::MAX - d) / 10 {
            return None;
        }
        n = n * 10 + d;
        i += 1;
    }
    assert(body.take(i - start) =~= body);
    Some(n)
}

/// A digit counts ten times what it would count one place further on, and no digits count
/// nothing.
pub proof fn law_digits_count_by_their_place(s: Seq<char>, c: char)
    requires
        '0' <= c && c <= '9',
    ensures
        value(Seq::empty()) == 0,
        value(s.push(c)) == value(s) * 10 + (c as int - 48),
{
    assert(s.push(c).drop_last() =~= s);
}

/// An integer is written with decimal digits only, which stand for it, and without leading zeros;
/// so it is written in one way only.
pub proof fn law_decimal_has_no_leading_zeros(n: nat)
    ensures
        digits(n).len() > 0,
        forall|i: int| 0 <= i < digits(n).len() ==> '0' <= #[trigger] digits(n)[i] && digits(n)[i]
            <= '9',
        value(digits(n)) == n,
        digits(n)[0] == '0' ==> n == 0 && digits(n).len() == 1,
    decreases n,
{
    lemma_digits_stand_for(n);
    assert forall|i: int| 0 <= i < digits(n).len() implies '0' <= #[trigger] digits(n)[i]
        && digits(n)[i] <= '9' by {
        assert(is_digit(digits(n)[i]));
    }
    if n >= 10 {
        law_decimal_has_no_leading_zeros(n / 10);
        assert(digits(n)[0] == digits(n / 10)[0]);
    }
}

/// Decimal digits are read as what they stand for, if 64 bits hold it, with or without a plus sign
/// before them.
pub proof fn law_digits_are_read(s: Seq<char>)
    requires
        s.len() > 0,
        forall|i: int| 0 <= i < s.len() ==> '0' <= #[trigger] s[i] && s[i] <= '9',
    ensures
        value(s) <= 0xFFFF_FFFF_FFFF_FFFF ==> parsed(s) == Some(value(s) as u64),
        value(s) > 0xFFFF_FFFF_FFFF_FFFF ==> parsed(s) is None,
        parsed(seq!['+'] + s) == parsed(s),
{
    assert(all_digits(s));
    assert((seq!['+'] + s).skip(1) =~= s);
}

/// Nothing else is read: neither text with a character that is no digit, save a plus sign at its
/// beginning, nor text without digits.
pub proof fn law_other_text_is_not_read(s: Seq<char>, i: int)
    requires
        0 <= i < s.len(),
        s[i] < '0' || '9' < s[i],
        i == 0 ==> s[0] != '+',
    ensures
        parsed(s) is None,
        parsed(Seq::empty()) is None,
        parsed(seq!['+']) is None,
{
    if s[0] == '+' {
        assert(s.skip(1)[i - 1] == s[i]);
        assert(!is_digit(s.skip(1)[i - 1]));
    } else {
        assert(!is_digit(s[i]));
    }
}

} // verus!
