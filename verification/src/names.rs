//! The names of arena files: `arena_<identifier>.dat`.

use vstd::prelude::*;
use vstd::string::{StrSliceExecFns, StringExecFns};

verus! {

/// `String::push` appends one character.
pub assume_specification[ String::push ](s: &mut String, ch: char)
    ensures
        final(s)@ == old(s)@.push(ch),
;

/// What every arena file's name starts with.
pub open spec fn prefix() -> Seq<char> {
    seq!['a', 'r', 'e', 'n', 'a', '_']
}

/// What every arena file's name ends with.
pub open spec fn suffix() -> Seq<char> {
    seq!['.', 'd', 'a', 't']
}

/// The character of a decimal digit.
pub open spec fn digit(d: int) -> char {
    seq!['0', '1', '2', '3', '4', '5', '6', '7', '8', '9'][d]
}

/// Whether a character is a decimal digit.
pub open spec fn is_digit(c: char) -> bool {
    '0' <= c <= '9'
}

/// The value of a decimal digit.
pub open spec fn digit_value(c: char) -> int {
    c as int - '0' as int
}

/// A number in decimal, without leading zeros.
pub open spec fn decimal(n: nat) -> Seq<char>
    decreases n,
{
    if n < 10 {
        seq![digit(n as int)]
    } else {
        decimal(n / 10).push(digit((n % 10) as int))
    }
}

/// The number that a row of decimal digits stands for.
pub open spec fn value(digits: Seq<char>) -> nat
    decreases digits.len(),
{
    if digits.len() == 0 {
        0
    } else {
        (value(digits.drop_last()) * 10 + digit_value(digits.last())) as nat
    }
}

/// Whether every character is a decimal digit.
pub open spec fn all_digits(s: Seq<char>) -> bool {
    forall|i: int| 0 <= i < s.len() ==> is_digit(#[trigger] s[i])
}

/// The name of the file that holds arena `aid`: `arena_`, the identifier in decimal,
/// `.dat`.
pub open spec fn arena_name(aid: nat) -> Seq<char> {
    prefix() + decimal(aid) + suffix()
}

/// The identifier in an arena file's name: the name is `arena_`, one or more decimal
/// digits and `.dat`, and the digits stand for a number that fits the machine word.
pub open spec fn arena_id_of(name: Seq<char>) -> Option<usize> {
    let digits = name.subrange(6, name.len() - 4);
    if name.len() >= 11 && name.subrange(0, 6) == prefix() && name.subrange(
        name.len() - 4,
        name.len() as int,
    ) == suffix() && all_digits(digits) && value(digits) <= usize::MAX {
        Some(value(digits) as usize)
    } else {
        None
    }
}

/// A number's decimal form is made of digits and stands for the number.
pub proof fn lemma_decimal(n: nat)
    ensures
        decimal(n).len() >= 1,
        all_digits(decimal(n)),
        value(decimal(n)) == n,
    decreases n,
{
    if n < 10 {
        let s = decimal(n);
        assert(s.drop_last() =~= Seq::<char>::empty());
        assert(value(s.drop_last()) == 0);
        assert(s.last() == digit(n as int));
    } else {
        lemma_decimal(n / 10);
        let s = decimal(n);
        assert(s.drop_last() =~= decimal(n / 10));
        assert(s.last() == digit((n % 10) as int));
        assert forall|i: int| 0 <= i < s.len() implies is_digit(#[trigger] s[i]) by {
            if i < s.len() - 1 {
                assert(s[i] == decimal(n / 10)[i]);
            }
        }
    }
}

/// The name made for an arena names that arena and no other.
pub proof fn lemma_name_round_trip(aid: usize)
    ensures
        arena_id_of(arena_name(aid as nat)) == Some(aid),
{
    let name = arena_name(aid as nat);
    let d = decimal(aid as nat);
    lemma_decimal(aid as nat);
    assert(name.subrange(0, 6) =~= prefix());
    assert(name.subrange(6, name.len() - 4) =~= d);
    assert(name.subrange(name.len() - 4, name.len() as int) =~= suffix());
}

/// The character of a decimal digit.
fn digit_char(d: usize) -> (c: char)
    requires
        d < 10,
    ensures
        c == digit(d as int),
{
    if d == 0 {
        '0'
    } else if d == 1 {
        '1'
    } else if d == 2 {
        '2'
    } else if d == 3 {
        '3'
    } else if d == 4 {
        '4'
    } else if d == 5 {
        '5'
    } else if d == 6 {
        '6'
    } else if d == 7 {
        '7'
    } else if d == 8 {
        '8'
    } else {
        '9'
    }
}

/// Appends `n` in decimal to `s`.
pub fn push_decimal(s: &mut String, n: usize)
    ensures
        final(s)@ == old(s)@ + decimal(n as nat),
    decreases n,
{
    if n >= 10 {
        push_decimal(s, n / 10);
    }
    s.push(digit_char(n % 10));
    assert(s@ =~= old(s)@ + decimal(n as nat));
}

/// The name of the file that holds arena `aid`.
pub fn arena_file_name(aid: usize) -> (name: String)
    ensures
        name@ == arena_name(aid as nat),
{
    let mut name = String::from_str("arena_");
    proof {
        reveal_strlit("arena_");
        reveal_strlit(".dat");
    }
    assert(name@ =~= prefix());
    push_decimal(&mut name, aid);
    name.append(".dat");
    assert(".dat"@ =~= suffix());
    name
}

/// The number that a row of digits stands for is at least what any of its beginnings
/// stands for.
pub proof fn lemma_value_grows(digits: Seq<char>, k: int)
    requires
        all_digits(digits),
        0 <= k <= digits.len(),
    ensures
        value(digits.subrange(0, k)) <= value(digits),
    decreases digits.len() - k,
{
    if k == digits.len() {
        assert(digits.subrange(0, k) =~= digits);
    } else {
        lemma_value_grows(digits, k + 1);
        let longer = digits.subrange(0, k + 1);
        assert(longer.drop_last() =~= digits.subrange(0, k));
        assert(longer.last() == digits[k]);
        assert(is_digit(digits[k]));
    }
}

/// The value of a decimal digit, or `None` for any other character.
fn digit_of(c: char) -> (d: Option<usize>)
    ensures
        match d {
            Some(v) => is_digit(c) && v == digit_value(c),
            None => !is_digit(c),
        },
{
    if c == '0' {
        Some(0)
    } else if c == '1' {
        Some(1)
    } else if c == '2' {
        Some(2)
    } else if c == '3' {
        Some(3)
    } else if c == '4' {
        Some(4)
    } else if c == '5' {
        Some(5)
    } else if c == '6' {
        Some(6)
    } else if c == '7' {
        Some(7)
    } else if c == '8' {
        Some(8)
    } else if c == '9' {
        Some(9)
    } else {
        None
    }
}

/// The identifier that an arena file's name holds, or `None` for any other name.
pub fn arena_id(name: &str) -> (id: Option<usize>)
    ensures
        id == arena_id_of(name@),
{
    let n = name.unicode_len();
    if n < 11 {
        return None;
    }
    if name.get_char(0) != 'a' || name.get_char(1) != 'r' || name.get_char(2) != 'e'
        || name.get_char(3) != 'n' || name.get_char(4) != 'a' || name.get_char(5) != '_' {
        assert(name@.subrange(0, 6) != prefix()) by {
            if name@.subrange(0, 6) == prefix() {
                assert(name@.subrange(0, 6)[0] == 'a');
                assert(name@.subrange(0, 6)[1] == 'r');
                assert(name@.subrange(0, 6)[2] == 'e');
                assert(name@.subrange(0, 6)[3] == 'n');
                assert(name@.subrange(0, 6)[4] == 'a');
                assert(name@.subrange(0, 6)[5] == '_');
            }
        }
        return None;
    }
    assert(name@.subrange(0, 6) =~= prefix());
    if name.get_char(n - 4) != '.' || name.get_char(n - 3) != 'd' || name.get_char(n - 2) != 'a'
        || name.get_char(n - 1) != 't' {
        assert(name@.subrange(n - 4, n as int) != suffix()) by {
            if name@.subrange(n - 4, n as int) == suffix() {
                assert(name@.subrange(n - 4, n as int)[0] == '.');
                assert(name@.subrange(n - 4, n as int)[1] == 'd');
                assert(name@.subrange(n - 4, n as int)[2] == 'a');
                assert(name@.subrange(n - 4, n as int)[3] == 't');
            }
        }
        return None;
    }
    assert(name@.subrange(n - 4, n as int) =~= suffix());
    let ghost digits = name@.subrange(6, n - 4);
    let mut acc: usize = 0;
    let mut i: usize = 6;
    while i < n - 4
        invariant
            n == name@.len(),
            n >= 11,
            6 <= i <= n - 4,
            digits == name@.subrange(6, n - 4),
            all_digits(digits.subrange(0, i - 6)),
            acc == value(digits.subrange(0, i - 6)),
        decreases n - i,
    {
        let c = name.get_char(i);
        let ghost longer = digits.subrange(0, i - 6 + 1);
        proof {
            assert(longer.drop_last() =~= digits.subrange(0, i - 6));
            assert(longer.last() == c);
        }
        match digit_of(c) {
            None => {
                assert(!is_digit(digits[i - 6]));
                return None;
            },
            Some(d) => {
                if acc > (usize::MAX - d) / 10 {
                    proof {
                        if all_digits(digits) {
                            lemma_value_grows(digits, i - 6 + 1);
                        }
                    }
                    return None;
                }
                acc = acc * 10 + d;
                assert forall|j: int| 0 <= j < longer.len() implies is_digit(
                    #[trigger] longer[j],
                ) by {
                    if j < i - 6 {
                        assert(longer[j] == digits.subrange(0, i - 6)[j]);
                    }
                }
            },
        }
        i = i + 1;
    }
    assert(digits.subrange(0, i - 6) =~= digits);
    Some(acc)
}

} // verus!
