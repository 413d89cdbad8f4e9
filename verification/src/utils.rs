//! The names of the logs: the log `7` is the file `7.log`.
use vstd::prelude::*;
use vstd::string::{StrSliceExecFns, StringExecFns};

verus! {

/// The character of a digit.
pub open spec fn digit_char(d: nat) -> char {
    if d == 0 {
        '0'
    } else if d == 1 {
        '1'
    } else if d == 2 {
        '2'
    } else if d == 3 {
        '3'
    } else if d == 4 {
        '4'
    } else if d == 5 {
        '5'
    } else if d == 6 {
        '6'
    } else if d == 7 {
        '7'
    } else if d == 8 {
        '8'
    } else {
        '9'
    }
}

/// The digit that a character stands for, where it is one.
pub open spec fn digit_of(c: char) -> Option<nat> {
    if c == '0' {
        Some(0)
    } else if c == '1' {
        Some(1)
    } else if c == '2' {
        Some(2)
    } else if c == '3' {
        Some(3)
    } else if c == '4' {
        Some(4)
    } else if c == '5' {
        Some(5)
    } else if c == '6' {
        Some(6)
    } else if c == '7' {
        Some(7)
    } else if c == '8' {
        Some(8)
    } else if c == '9' {
        Some(9)
    } else {
        None
    }
}

/// A number in decimal digits, without leading zeros.
pub open spec fn decimal(n: nat) -> Seq<char>
    decreases n,
{
    if n < 10 {
        seq![digit_char(n)]
    } else {
        decimal(n / 10).push(digit_char(n % 10))
    }
}

/// The number that decimal digits stand for. The empty sequence stands
/// for zero; a sequence with another character stands for nothing.
pub open spec fn digits_value(s: Seq<char>) -> Option<nat>
    decreases s.len(),
{
    if s.len() == 0 {
        Some(0)
    } else {
        match (digits_value(s.drop_last()), digit_of(s.last())) {
            (Some(v), Some(d)) => Some(v * 10 + d),
            _ => None,
        }
    }
}

/// The `u32` that a string stands for: a plus sign or none, then at least
/// one decimal digit, and a value that a `u32` can hold.
pub open spec fn parse_u32(s: Seq<char>) -> Option<u32> {
    let digits = if s.len() > 0 && s[0] == '+' {
        s.subrange(1, s.len() as int)
    } else {
        s
    };
    if digits.len() == 0 {
        None
    } else {
        match digits_value(digits) {
            Some(v) => if v <= u32::MAX {
                Some(v as u32)
            } else {
                None
            },
            None => None,
        }
    }
}

/// The name of the log `id`.
pub open spec fn log_name(id: u32) -> Seq<char> {
    decimal(id as nat) + seq!['.', 'l', 'o', 'g']
}

/// Whether a file of this name is a log: the name ends in `.log`, and
/// something stands before that.
pub open spec fn is_log(name: Seq<char>) -> bool {
    name.len() >= 5 && name.subrange(name.len() - 4, name.len() as int) == seq!['.', 'l', 'o', 'g']
}

/// The id that the name of a log gives, where what stands before `.log`
/// is a number.
pub open spec fn log_id(name: Seq<char>) -> Option<u32> {
    parse_u32(name.subrange(0, name.len() - 4))
}

/// Decimal digits stand for their number.
pub proof fn lemma_decimal(n: nat)
    ensures
        decimal(n).len() >= 1,
        digits_value(decimal(n)) == Some(n),
        decimal(n)[0] != '+',
    decreases n,
{
    if n < 10 {
        assert(decimal(n).drop_last() =~= Seq::<char>::empty());
        reveal_with_fuel(digits_value, 2);
    } else {
        lemma_decimal(n / 10);
        assert(decimal(n).drop_last() =~= decimal(n / 10));
    }
}

/// Law of the names: the name of a log is the name of a log, and gives
/// the id of that log.
pub proof fn lemma_log_name(id: u32)
    ensures
        is_log(log_name(id)),
        log_id(log_name(id)) == Some(id),
{
    lemma_decimal(id as nat);
    let name = log_name(id);
    assert(name.subrange(name.len() - 4, name.len() as int) =~= seq!['.', 'l', 'o', 'g']);
    assert(name.subrange(0, name.len() - 4) =~= decimal(id as nat));
}

/// The digit `d` as a string.
fn digit_str(d: u32) -> (s: &'static str)
    requires
        d < 10,
    ensures
        s@ == seq![digit_char(d as nat)],
{
    proof {
        reveal_strlit("0");
        reveal_strlit("1");
        reveal_strlit("2");
        reveal_strlit("3");
        reveal_strlit("4");
        reveal_strlit("5");
        reveal_strlit("6");
        reveal_strlit("7");
        reveal_strlit("8");
        reveal_strlit("9");
    }
    let s = if d == 0 {
        "0"
    } else if d == 1 {
        "1"
    } else if d == 2 {
        "2"
    } else if d == 3 {
        "3"
    } else if d == 4 {
        "4"
    } else if d == 5 {
        "5"
    } else if d == 6 {
        "6"
    } else if d == 7 {
        "7"
    } else if d == 8 {
        "8"
    } else {
        "9"
    };
    assert(s@ =~= seq![digit_char(d as nat)]);
    s
}

/// A number in decimal digits.
pub fn decimal_string(n: u32) -> (s: String)
    ensures
        s@ == decimal(n as nat),
    decreases n,
{
    if n < 10 {
        String::from_str(digit_str(n))
    } else {
        let mut s = decimal_string(n / 10);
        s.append(digit_str(n % 10));
        assert(s@ =~= decimal(n as nat));
        s
    }
}

/// The name of the file that holds the log `id`.
pub fn log_path(id: u32) -> (name: String)
    ensures
        name@ == log_name(id),
{
    let mut name = decimal_string(id);
    proof {
        reveal_strlit(".log");
    }
    name.append(".log");
    assert(name@ =~= log_name(id));
    name
}

/// The digit that a character stands for, where it is one.
fn digit_value(c: char) -> (d: Option<u32>)
    ensures
        match d {
            Some(v) => digit_of(c) == Some(v as nat) && v < 10,
            None => digit_of(c) is None,
        },
{
    if c == '0' {
        Some(0)
    } else if c == '1' {
        Some(1)
    } else if c == '2' {
        Some(2)
    } else if c == '3' {
        Some(3)
    } else if c == '4' {
        Some(4)
    } else if c == '5' {
        Some(5)
    } else if c == '6' {
        Some(6)
    } else if c == '7' {
        Some(7)
    } else if c == '8' {
        Some(8)
    } else if c == '9' {
        Some(9)
    } else {
        None
    }
}

/// The value of a longer sequence of digits is no smaller.
proof fn lemma_digits_grow(s: Seq<char>, n: int)
    requires
        0 <= n <= s.len(),
        digits_value(s) is Some,
    ensures
        digits_value(s.subrange(0, n)) is Some,
        digits_value(s.subrange(0, n))->0 <= digits_value(s)->0,
    decreases s.len() - n,
{
    if n == s.len() {
        assert(s.subrange(0, n) =~= s);
    } else {
        lemma_digits_grow(s.drop_last(), n);
        assert(s.drop_last().subrange(0, n) =~= s.subrange(0, n));
    }
}

/// What comes of a sequence with a character that is no digit.
proof fn lemma_digits_none(s: Seq<char>, n: int)
    requires
        0 <= n <= s.len(),
        digits_value(s.subrange(0, n)) is None,
    ensures
        digits_value(s) is None,
    decreases s.len() - n,
{
    if n == s.len() {
        assert(s.subrange(0, n) =~= s);
    } else {
        assert(s.drop_last().subrange(0, n) =~= s.subrange(0, n));
        lemma_digits_none(s.drop_last(), n);
    }
}

/// The `u32` that the characters of `name` from `from` up to `to` stand
/// for.
fn parse_digits(name: &str, from: usize, to: usize) -> (out: Option<u32>)
    requires
        from <= to <= name@.len(),
    ensures
        out == match digits_value(name@.subrange(from as int, to as int)) {
            Some(v) => if from < to && v <= u32::MAX {
                Some(v as u32)
            } else {
                None
            },
            None => None,
        },
{
    if from == to {
        return None;
    }
    let ghost digits = name@.subrange(from as int, to as int);
    let mut value: u32 = 0;
    let mut i: usize = from;
    assert(digits.subrange(0, 0) =~= Seq::<char>::empty());
    while i < to
        invariant
            from <= i <= to <= name@.len(),
            from < to,
            digits == name@.subrange(from as int, to as int),
            digits_value(digits.subrange(0, i - from)) == Some(value as nat),
        decreases to - i,
    {
        let c = name.get_char(i);
        let ghost prefix = digits.subrange(0, i - from + 1);
        proof {
            assert(prefix.drop_last() =~= digits.subrange(0, i - from));
            assert(prefix.last() == c);
        }
        match digit_value(c) {
            None => {
                proof {
                    lemma_digits_none(digits, i - from + 1);
                }
                return None;
            },
            Some(d) => {
                if value > (u32::MAX - d) / 10 {
                    proof {
                        assert(value * 10 + d > u32::MAX);
                        if digits_value(digits) is Some {
                            lemma_digits_grow(digits, i - from + 1);
                        }
                    }
                    return None;
                }
                value = value * 10 + d;
            },
        }
        i += 1;
    }
    assert(digits.subrange(0, to - from) =~= digits);
    Some(value)
}

/// The `u32` that the first `to` characters of `name` stand for.
pub fn parse_number(name: &str, to: usize) -> (out: Option<u32>)
    requires
        to <= name@.len(),
    ensures
        out == parse_u32(name@.subrange(0, to as int)),
{
    let ghost s = name@.subrange(0, to as int);
    if to > 0 && name.get_char(0) == '+' {
        assert(s.subrange(1, s.len() as int) =~= name@.subrange(1, to as int));
        parse_digits(name, 1, to)
    } else {
        parse_digits(name, 0, to)
    }
}

/// What the name of a file says: that the file is no log, or its id, or
/// that it is a log whose name gives no id.
pub fn parse_log_name(name: &str) -> (out: Option<Option<u32>>)
    ensures
        out == if is_log(name@) {
            Some(log_id(name@))
        } else {
            None
        },
{
    let len = name.unicode_len();
    if len < 5 {
        return None;
    }
    let ghost suffix = name@.subrange(len - 4, len as int);
    if name.get_char(len - 4) == '.' && name.get_char(len - 3) == 'l' && name.get_char(len - 2)
        == 'o' && name.get_char(len - 1) == 'g' {
        assert(suffix =~= seq!['.', 'l', 'o', 'g']);
        Some(parse_number(name, len - 4))
    } else {
        assert(suffix[0] == name@[len - 4] && suffix[1] == name@[len - 3] && suffix[2] == name@[len
            - 2] && suffix[3] == name@[len - 1]);
        None
    }
}

} // verus!
