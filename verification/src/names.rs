//! The names of generation files: `generation_`, the sequence number in
//! decimal, `.toml`.

use vstd::prelude::*;
use vstd::string::*;
use crate::text::chars_of;

verus! {

/// What stands before the number in a generation file's name.
pub open spec fn name_prefix() -> Seq<char> {
    seq!['g', 'e', 'n', 'e', 'r', 'a', 't', 'i', 'o', 'n', '_']
}

/// What stands behind the number in a generation file's name.
pub open spec fn name_suffix() -> Seq<char> {
    seq!['.', 't', 'o', 'm', 'l']
}

/// The largest sequence number that a file name can give.
pub const MAX_GENERATION: u32 = 2147483647;

/// Whether `s` begins with `p`.
pub open spec fn has_prefix(s: Seq<char>, p: Seq<char>) -> bool {
    p.len() <= s.len() && s.take(p.len() as int) == p
}

/// Whether `s` ends with `p`.
pub open spec fn has_suffix(s: Seq<char>, p: Seq<char>) -> bool {
    p.len() <= s.len() && s.skip(s.len() - p.len()) == p
}

/// `s` without every leading copy of `p`.
pub open spec fn strip_leading(s: Seq<char>, p: Seq<char>) -> Seq<char>
    decreases s.len(),
{
    if p.len() > 0 && has_prefix(s, p) {
        strip_leading(s.skip(p.len() as int), p)
    } else {
        s
    }
}

/// `s` without every trailing copy of `p`.
pub open spec fn strip_trailing(s: Seq<char>, p: Seq<char>) -> Seq<char>
    decreases s.len(),
{
    if p.len() > 0 && has_suffix(s, p) {
        strip_trailing(s.take(s.len() - p.len()), p)
    } else {
        s
    }
}

/// The part of a file name that holds the number: the name without its
/// leading prefixes and, after that, without its trailing suffixes.
pub open spec fn stem(name: Seq<char>) -> Seq<char> {
    strip_trailing(strip_leading(name, name_prefix()), name_suffix())
}

/// Whether `c` is a decimal digit.
pub open spec fn is_digit(c: char) -> bool {
    0x30 <= c as u32 <= 0x39
}

/// The value of a decimal digit.
pub open spec fn digit_value(c: char) -> nat {
    (c as u32 - 0x30) as nat
}

/// Whether `s` holds decimal digits only.
pub open spec fn all_digits(s: Seq<char>) -> bool {
    forall|i: int| 0 <= i < s.len() ==> is_digit(#[trigger] s[i])
}

/// The number that the digits of `s` write in base ten.
pub open spec fn decimal_value(s: Seq<char>) -> nat
    decreases s.len(),
{
    if s.len() == 0 {
        0
    } else {
        decimal_value(s.drop_last()) * 10 + digit_value(s.last())
    }
}

/// The 32-bit signed integer that `s` writes: an optional sign, then one or
/// more digits; nothing where the value is out of range.
pub open spec fn signed_number(s: Seq<char>) -> Option<int> {
    if s.len() == 0 {
        None
    } else {
        let signed = s[0] == '-' || s[0] == '+';
        let digits = if signed {
            s.skip(1)
        } else {
            s
        };
        let value = if s[0] == '-' {
            -(decimal_value(digits) as int)
        } else {
            decimal_value(digits) as int
        };
        if digits.len() > 0 && all_digits(digits) && -2147483648 <= value <= 2147483647 {
            Some(value)
        } else {
            None
        }
    }
}

/// The sequence number that a file name gives: its stem read as a 32-bit
/// signed integer, where that is not negative.
pub open spec fn generation_number(name: Seq<char>) -> Option<u32> {
    match signed_number(stem(name)) {
        Some(v) => if v >= 0 {
            Some(v as u32)
        } else {
            None
        },
        None => None,
    }
}

/// The digit that writes `d`.
pub open spec fn digit_char(d: nat) -> char {
    if d == 0 {
        '0'
    } else if d == 1 {
        '1'
    } else if d == 2 {
        '2'
    } else if d == 3 {
        '3'
    } else if d == 4 {
        '4'
    } else if d == 5 {
        '5'
    } else if d == 6 {
        '6'
    } else if d == 7 {
        '7'
    } else if d == 8 {
        '8'
    } else {
        '9'
    }
}

/// `n` in decimal, without leading zeros.
pub open spec fn decimal_text(n: nat) -> Seq<char>
    decreases n,
{
    if n < 10 {
        seq![digit_char(n)]
    } else {
        decimal_text(n / 10).push(digit_char(n % 10))
    }
}

/// The name of the file that holds generation `n`.
pub open spec fn file_name(n: nat) -> Seq<char> {
    name_prefix() + decimal_text(n) + name_suffix()
}

/// Whether `p` stands in `s` from index `at` on.
fn matches_at(s: &[char], at: usize, end: usize, p: &[char]) -> (b: bool)
    requires
        at <= end <= s@.len(),
    ensures
        b == has_prefix(s@.subrange(at as int, end as int), p@),
{
    let n = p.len();
    if n > end - at {
        return false;
    }
    let ghost part = s@.subrange(at as int, end as int);
    let mut i: usize = 0;
    while i < n
        invariant
            i <= n,
            n == p@.len(),
            at + n <= end <= s@.len(),
            part == s@.subrange(at as int, end as int),
            forall|k: int| 0 <= k < i ==> part[k] == p@[k],
        decreases n - i,
    {
        if s[at + i] != p[i] {
            proof {
                assert(part.take(n as int)[i as int] == part[i as int]);
            }
            return false;
        }
        i += 1;
    }
    proof {
        assert(part.take(n as int) =~= p@);
    }
    true
}

/// The bounds of the stem of `name`.
fn stem_bounds(name: &[char]) -> (r: (usize, usize))
    ensures
        r.0 <= r.1 <= name@.len(),
        name@.subrange(r.0 as int, r.1 as int) == stem(name@),
{
    let n = name.len();
    let prefix_chars = chars_of("generation_");
    let suffix_chars = chars_of(".toml");
    let prefix = prefix_chars.as_slice();
    let suffix = suffix_chars.as_slice();
    proof {
        reveal_strlit("generation_");
        reveal_strlit(".toml");
        assert(prefix@ =~= name_prefix());
        assert(suffix@ =~= name_suffix());
        assert(name@.subrange(0, n as int) =~= name@);
    }
    let mut start: usize = 0;
    while matches_at(name, start, n, prefix)
        invariant
            start <= n,
            n == name@.len(),
            prefix@ == name_prefix(),
            strip_leading(name@.subrange(start as int, n as int), name_prefix()) == strip_leading(
                name@,
                name_prefix(),
            ),
        decreases n - start,
    {
        proof {
            assert(name@.subrange(start as int, n as int).skip(11) =~= name@.subrange(
                start + 11,
                n as int,
            ));
        }
        start += 11;
    }
    let mut end: usize = n;
    let ghost rest = name@.subrange(start as int, n as int);
    while end - start >= 5 && matches_at(name, end - 5, end, suffix)
        invariant
            start <= end <= n,
            n == name@.len(),
            suffix@ == name_suffix(),
            rest == name@.subrange(start as int, n as int),
            strip_trailing(name@.subrange(start as int, end as int), name_suffix())
                == strip_trailing(rest, name_suffix()),
        decreases end - start,
    {
        proof {
            let cur = name@.subrange(start as int, end as int);
            assert(cur.skip(cur.len() - 5) =~= name@.subrange(end - 5, end as int));
            assert(name@.subrange(end - 5, end as int).take(5) =~= name@.subrange(
                end - 5,
                end as int,
            ));
            assert(cur.take(cur.len() - 5) =~= name@.subrange(start as int, end - 5));
        }
        end -= 5;
    }
    proof {
        let cur = name@.subrange(start as int, end as int);
        if end - start >= 5 {
            assert(cur.skip(cur.len() - 5) =~= name@.subrange(end - 5, end as int));
            assert(name@.subrange(end - 5, end as int).take(5) =~= name@.subrange(
                end - 5,
                end as int,
            ));
        }
        assert(!has_suffix(cur, name_suffix()));
    }
    (start, end)
}

/// A longer digit string writes no smaller number.
proof fn lemma_decimal_value_step(s: Seq<char>, k: int)
    requires
        0 <= k < s.len(),
    ensures
        s.take(k + 1).drop_last() == s.take(k),
        s.take(k + 1).last() == s[k],
        decimal_value(s.take(k + 1)) == decimal_value(s.take(k)) * 10 + digit_value(s[k]),
{
    assert(s.take(k + 1).drop_last() =~= s.take(k));
}

/// Reads the sequence number off a generation file's name.
pub fn extract_gen(name: &str) -> (r: Option<u32>)
    ensures
        r == generation_number(name@),
{
    let chars = chars_of(name);
    let (start, end) = stem_bounds(chars.as_slice());
    let ghost body = name@.subrange(start as int, end as int);
    if start == end {
        return None;
    }
    let first = chars[start];
    proof {
        assert(body[0] == name@[start as int]);
    }
    let negative = first == '-';
    let from: usize = if first == '-' || first == '+' {
        start + 1
    } else {
        start
    };
    let ghost digits = name@.subrange(from as int, end as int);
    proof {
        if from == start + 1 {
            assert(body.skip(1) =~= digits);
        }
        assert(digits == if body[0] == '-' || body[0] == '+' {
            body.skip(1)
        } else {
            body
        });
    }
    if from == end {
        return None;
    }
    let mut value: u64 = 0;
    let mut i: usize = from;
    proof {
        assert(digits.take(0) =~= Seq::<char>::empty());
    }
    while i < end
        invariant
            from <= i <= end <= name@.len(),
            chars@ == name@,
            digits == name@.subrange(from as int, end as int),
            body == stem(name@),
            body.len() > 0,
            negative == (body[0] == '-'),
            digits == if body[0] == '-' || body[0] == '+' {
                body.skip(1)
            } else {
                body
            },
            all_digits(digits.take(i - from)),
            value <= 2147483648,
            value < 2147483648 ==> value == decimal_value(digits.take(i - from)),
            value == 2147483648 ==> decimal_value(digits.take(i - from)) >= 2147483648,
        decreases end - i,
    {
        let c = chars[i];
        let u: u32 = c as u32;
        proof {
            assert(digits[i - from] == c);
            lemma_decimal_value_step(digits, i - from);
        }
        if u < 0x30 || u > 0x39 {
            proof {
                assert(!is_digit(digits[i - from]));
            }
            return None;
        }
        proof {
            assert forall|k: int| 0 <= k < i + 1 - from implies is_digit(
                #[trigger] digits.take(i + 1 - from)[k],
            ) by {
                if k < i - from {
                    assert(digits.take(i - from)[k] == digits.take(i + 1 - from)[k]);
                }
            }
        }
        if value < 2147483648 {
            let next: u64 = value * 10 + (u - 0x30) as u64;
            value = if next > 2147483648 {
                2147483648
            } else {
                next
            };
        }
        i += 1;
    }
    proof {
        assert(digits.take(end - from) =~= digits);
    }
    if negative {
        if value == 0 {
            Some(0)
        } else {
            None
        }
    } else if value <= 2147483647 {
        Some(value as u32)
    } else {
        None
    }
}

/// The one-letter text of the digit `d`.
fn digit_text(d: u32) -> (r: &'static str)
    requires
        d < 10,
    ensures
        r@ == seq![digit_char(d as nat)],
{
    proof {
        reveal_strlit("0");
        reveal_strlit("1");
        reveal_strlit("2");
        reveal_strlit("3");
        reveal_strlit("4");
        reveal_strlit("5");
        reveal_strlit("6");
        reveal_strlit("7");
        reveal_strlit("8");
        reveal_strlit("9");
    }
    let r = if d == 0 {
        "0"
    } else if d == 1 {
        "1"
    } else if d == 2 {
        "2"
    } else if d == 3 {
        "3"
    } else if d == 4 {
        "4"
    } else if d == 5 {
        "5"
    } else if d == 6 {
        "6"
    } else if d == 7 {
        "7"
    } else if d == 8 {
        "8"
    } else {
        "9"
    };
    proof {
        assert(r@ =~= seq![digit_char(d as nat)]);
    }
    r
}

/// Writes `n` in decimal.
pub fn decimal_string(n: u32) -> (out: String)
    ensures
        out@ == decimal_text(n as nat),
    decreases n,
{
    if n < 10 {
        String::from_str(digit_text(n))
    } else {
        let mut out = decimal_string(n / 10);
        let ghost before = out@;
        out.append(digit_text(n % 10));
        proof {
            assert(before + seq![digit_char((n % 10) as nat)] =~= before.push(
                digit_char((n % 10) as nat),
            ));
        }
        out
    }
}

/// The name of the file that holds generation `n`.
pub fn generation_file_name(n: u32) -> (out: String)
    ensures
        out@ == file_name(n as nat),
{
    proof {
        reveal_strlit("generation_");
        reveal_strlit(".toml");
        assert("generation_"@ =~= name_prefix());
        assert(".toml"@ =~= name_suffix());
    }
    let mut out = String::from_str("generation_");
    let digits = decimal_string(n);
    out.append(digits.as_str());
    out.append(".toml");
    out
}

/// The decimal text of a number is made of digits and writes that number.
pub proof fn lemma_decimal_text(n: nat)
    ensures
        decimal_text(n).len() > 0,
        all_digits(decimal_text(n)),
        decimal_value(decimal_text(n)) == n,
    decreases n,
{
    let s = decimal_text(n);
    if n < 10 {
        assert(s.drop_last() =~= Seq::<char>::empty());
        assert(decimal_value(s.drop_last()) == 0);
        assert(digit_value(digit_char(n)) == n);
    } else {
        lemma_decimal_text(n / 10);
        assert(s.drop_last() =~= decimal_text(n / 10));
        assert(digit_value(digit_char(n % 10)) == n % 10);
        assert(is_digit(digit_char(n % 10)));
    }
}

/// A prefix, digits and a suffix have the digits as their stem.
pub proof fn lemma_stem_of_digits(digits: Seq<char>)
    requires
        digits.len() > 0,
        all_digits(digits),
    ensures
        stem(name_prefix() + digits + name_suffix()) == digits,
{
    let full = name_prefix() + digits + name_suffix();
    let rest = digits + name_suffix();
    assert(full.take(11) =~= name_prefix());
    assert(full.skip(11) =~= rest);
    assert(rest[0] == digits[0]);
    assert(is_digit(digits[0]));
    if has_prefix(rest, name_prefix()) {
        assert(rest.take(11)[0] == name_prefix()[0]);
    }
    assert(strip_leading(rest, name_prefix()) == rest);
    assert(strip_leading(full, name_prefix()) == rest);
    assert(rest.skip(rest.len() - 5) =~= name_suffix());
    assert(rest.take(rest.len() - 5) =~= digits);
    assert(is_digit(digits[digits.len() - 1]));
    if has_suffix(digits, name_suffix()) {
        assert(digits.skip(digits.len() - 5)[4] == name_suffix()[4]);
    }
    assert(strip_trailing(digits, name_suffix()) == digits);
    assert(strip_trailing(rest, name_suffix()) == digits);
}

/// The name written for a generation gives that generation's number back.
pub proof fn file_name_gives_its_number(n: u32)
    requires
        n <= MAX_GENERATION,
    ensures
        generation_number(file_name(n as nat)) == Some(n),
{
    let digits = decimal_text(n as nat);
    lemma_decimal_text(n as nat);
    lemma_stem_of_digits(digits);
    assert(is_digit(digits[0]));
}

} // verus!
