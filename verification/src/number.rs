//! Numbers as text.

use crate::text::{chars_of, is_digit};
use vstd::prelude::*;

verus! {

pub open spec fn digit(d: int) -> char {
    ('0' as int + d) as char
}

/// The decimal digits of `n`, without leading zeros.
pub open spec fn decimal(n: nat) -> Seq<char>
    decreases n,
{
    if n < 10 {
        seq![digit(n as int)]
    } else {
        decimal(n / 10).push(digit((n % 10) as int))
    }
}

/// The number that the digits of `s` stand for.
pub open spec fn value(s: Seq<char>) -> nat
    decreases s.len(),
{
    if s.len() == 0 {
        0
    } else {
        value(s.drop_last()) * 10 + (s.last() as int - '0' as int) as nat
    }
}

pub open spec fn all_digits(s: Seq<char>) -> bool {
    forall|i: int| 0 <= i < s.len() ==> is_digit(#[trigger] s[i])
}

/// `s` without a plus sign in front.
pub open spec fn unsigned(s: Seq<char>) -> Seq<char> {
    if s.len() > 0 && s[0] == '+' {
        s.drop_first()
    } else {
        s
    }
}

/// The number that `s` writes: at least one digit and nothing else, a plus
/// sign in front or not, and no more than 64 bits.
pub open spec fn number(s: Seq<char>) -> Option<u64> {
    let d = unsigned(s);
    if d.len() > 0 && all_digits(d) && value(d) <= u64::MAX {
        Some(value(d) as u64)
    } else {
        None
    }
}

/// Digits are read back as the number they were written for.
proof fn lemma_value_decimal(n: nat)
    ensures
        value(decimal(n)) == n,
        all_digits(decimal(n)),
        decimal(n).len() > 0,
    decreases n,
{
    reveal_with_fuel(value, 2);
    if n < 10 {
        let s = seq![digit(n as int)];
        assert(s.drop_last() =~= Seq::<char>::empty());
    } else {
        lemma_value_decimal(n / 10);
        let s = decimal(n);
        assert(s.drop_last() =~= decimal(n / 10));
        assert(s.last() == digit((n % 10) as int));
    }
}

/// What is written for a number is digits.
pub proof fn lemma_decimal_digits(n: nat)
    ensures
        decimal(n).len() > 0,
        forall|i: int| 0 <= i < decimal(n).len() ==> is_digit(#[trigger] decimal(n)[i]),
{
    lemma_value_decimal(n);
}

/// A number that is written is read back.
pub proof fn law_a_number_is_read_back(n: u64)
    ensures
        number(decimal(n as nat)) == Some(n),
{
    lemma_value_decimal(n as nat);
    let s = decimal(n as nat);
    assert(is_digit(s[0]));
    assert(unsigned(s) == s);
}

/// More digits never stand for less.
proof fn lemma_value_grows(s: Seq<char>, i: int)
    requires
        0 <= i <= s.len(),
        all_digits(s),
    ensures
        value(s.take(i)) <= value(s),
    decreases s.len() - i,
{
    if i == s.len() {
        assert(s.take(i) =~= s);
    } else {
        lemma_value_grows(s, i + 1);
        assert(s.take(i + 1).drop_last() =~= s.take(i));
        assert(is_digit(s[i]));
    }
}

fn digit_text(d: u64) -> (res: &'static str)
    requires
        d < 10,
    ensures
        res@ == seq![digit(d as int)],
{
    proof {
        reveal_strlit("0");
        reveal_strlit("1");
        reveal_strlit("2");
        reveal_strlit("3");
        reveal_strlit("4");
        reveal_strlit("5");
        reveal_strlit("6");
        reveal_strlit("7");
        reveal_strlit("8");
        reveal_strlit("9");
    }
    let t: &'static str = match d {
        0 => "0",
        1 => "1",
        2 => "2",
        3 => "3",
        4 => "4",
        5 => "5",
        6 => "6",
        7 => "7",
        8 => "8",
        _ => "9",
    };
    assert(t@ =~= seq![digit(d as int)]);
    t
}

/// The number in decimal.
pub fn decimal_of(n: u64) -> (res: String)
    ensures
        res@ == decimal(n as nat),
    decreases n,
{
    if n < 10 {
        digit_text(n).to_string()
    } else {
        let mut out = decimal_of(n / 10);
        out.append(digit_text(n % 10));
        assert(out@ =~= decimal(n as nat));
        out
    }
}

/// The number that the text writes, if it writes one.
pub fn number_in(s: &str) -> (res: Option<u64>)
    ensures
        res == number(s@),
{
    let cs = chars_of(s);
    let from: usize = if cs.len() > 0 && cs[0] == '+' {
        1
    } else {
        0
    };
    let ghost d = unsigned(s@);
    assert(d =~= s@.skip(from as int));
    if from == cs.len() {
        return None;
    }
    let mut n: u64 = 0;
    let mut i: usize = from;
    while i < cs.len()
        invariant
            cs@ == s@,
            from <= i <= cs@.len(),
            d == s@.skip(from as int),
            d == unsigned(s@),
            forall|j: int| 0 <= j < i - from ==> is_digit(#[trigger] d[j]),
            n == value(d.take(i - from)),
        decreases cs@.len() - i,
    {
        let c = cs[i];
        let ghost next = d.take(i + 1 - from);
        proof {
            assert(next.drop_last() =~= d.take(i - from));
            assert(next.last() == c);
            assert(d[i - from] == c);
        }
        if !('0' <= c && c <= '9') {
            return None;
        }
        let k: u64 = (c as u64) - 48;
        proof {
            if all_digits(d) {
                lemma_value_grows(d, i + 1 - from);
            }
        }
        if n > (u64::MAX - k) / 10 {
            return None;
        }
        n = n * 10 + k;
        i = i + 1;
    }
    assert(d.take(d.len() as int) =~= d);
    Some(n)
}

/// A number is read digit by digit: one more digit is ten times as much and
/// that digit, as long as it fits; a plus sign in front changes nothing, and
/// anything that is no digit makes it no number.
pub proof fn law_digits_are_tens(s: Seq<char>, n: u64, d: char, i: int)
    ensures
        '0' <= d <= '9' ==> number(seq![d]) == Some((d as int - '0' as int) as u64),
        s.len() > 0 && s[0] != '+' && '0' <= d <= '9' && number(s) == Some(n) ==> number(s.push(d))
            == if 10 * n + (d as int - '0' as int) <= u64::MAX {
            Some((10 * n + (d as int - '0' as int)) as u64)
        } else {
            None
        },
        s.len() > 0 && s[0] != '+' ==> number(seq!['+'] + s) == number(s),
        0 < i < s.len() && !('0' <= s[i] <= '9') ==> number(s) is None,
        s.len() > 0 && s[0] != '+' && !('0' <= s[0] <= '9') ==> number(s) is None,
        number(Seq::empty()) is None,
        number(seq!['+']) is None,
{
    reveal_with_fuel(value, 2);
    let one = seq![d];
    assert(one.drop_last() =~= Seq::<char>::empty());
    assert(seq!['+'].drop_first() =~= Seq::<char>::empty());
    if '0' <= d <= '9' {
        assert(all_digits(one));
        assert(unsigned(one) == one);
    }
    let p = s.push(d);
    assert(p.drop_last() =~= s);
    if s.len() > 0 && s[0] != '+' {
        assert(p[0] == s[0]);
        assert(unsigned(p) == p);
        if number(s) == Some(n) && '0' <= d <= '9' {
            assert forall|j: int| 0 <= j < p.len() implies is_digit(#[trigger] p[j]) by {
                if j < s.len() {
                    assert(p[j] == s[j]);
                    assert(is_digit(s[j]));
                }
            }
        }
        let q = seq!['+'] + s;
        assert(q.drop_first() =~= s);
        if !('0' <= s[0] <= '9') {
            assert(!is_digit(s[0]));
        }
    }
    if 0 < i < s.len() && !('0' <= s[i] <= '9') {
        let u = unsigned(s);
        if s[0] == '+' {
            assert(u[i - 1] == s[i]);
            assert(!is_digit(u[i - 1]));
        } else {
            assert(!is_digit(u[i]));
        }
    }
}

/// A number is written in digits, with no zero in front but for the number
/// zero itself.
pub proof fn law_how_a_number_is_written(n: nat)
    ensures
        decimal(n).len() > 0,
        forall|i: int| 0 <= i < decimal(n).len() ==> '0' <= #[trigger] decimal(n)[i] <= '9',
        decimal(n)[0] == '0' <==> n == 0,
        n == 0 ==> decimal(n).len() == 1,
    decreases n,
{
    lemma_value_decimal(n);
    assert forall|i: int| 0 <= i < decimal(n).len() implies '0' <= #[trigger] decimal(n)[i]
        <= '9' by {
        assert(is_digit(decimal(n)[i]));
    }
    if n >= 10 {
        law_how_a_number_is_written(n / 10);
        assert(decimal(n)[0] == decimal(n / 10)[0]);
    }
}

} // verus!
