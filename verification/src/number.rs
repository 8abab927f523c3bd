//! Decimal integers in text: reading them as `str::parse` does for `i32` and
//! `u32`, and writing an `i32` as `to_string` does.
use vstd::prelude::*;

verus! {

/// `c` is one of the ASCII digits `0` to `9`.
pub open spec fn is_digit(c: char) -> bool {
    '0' <= c && c <= '9'
}

/// Every character of `d` is an ASCII digit.
pub open spec fn all_digits(d: Seq<char>) -> bool {
    forall|i: int| 0 <= i < d.len() ==> is_digit(#[trigger] d[i])
}

/// The value of the digit `c`.
pub open spec fn digit_value(c: char) -> int {
    c as int - '0' as int
}

/// The value of the decimal numeral `d` (most significant digit first).
pub open spec fn digits_value(d: Seq<char>) -> int
    decreases d.len(),
{
    if d.len() == 0 {
        0
    } else {
        digits_value(d.drop_last()) * 10 + digit_value(d.last())
    }
}

/// The integer that `t` spells: an optional `+` (or, where `allow_minus`,
/// `-`) followed by one or more ASCII digits and nothing else. This is the
/// grammar of `str::parse` for Rust's integer types, before the range check.
pub open spec fn spec_parse_integer(t: Seq<char>, allow_minus: bool) -> Option<int> {
    let negative = allow_minus && t.len() > 0 && t[0] == '-';
    let signed = t.len() > 0 && (t[0] == '+' || negative);
    let d = if signed {
        t.drop_first()
    } else {
        t
    };
    if d.len() == 0 || !all_digits(d) {
        None
    } else if negative {
        Some(-digits_value(d))
    } else {
        Some(digits_value(d))
    }
}

/// What `t.parse::<i32>()` gives, as an option.
pub open spec fn spec_parse_i32(t: Seq<char>) -> Option<i32> {
    match spec_parse_integer(t, true) {
        Some(v) => if i32::MIN <= v <= i32::MAX {
            Some(v as i32)
        } else {
            None
        },
        None => None,
    }
}

/// What `t.parse::<u32>()` gives, as an option.
pub open spec fn spec_parse_u32(t: Seq<char>) -> Option<u32> {
    match spec_parse_integer(t, false) {
        Some(v) => if 0 <= v <= u32::MAX {
            Some(v as u32)
        } else {
            None
        },
        None => None,
    }
}

/// A text that reads as an integer is non-empty and holds only digits and
/// signs.
pub proof fn lemma_integer_text(t: Seq<char>, allow_minus: bool)
    requires
        spec_parse_integer(t, allow_minus) is Some,
    ensures
        t.len() > 0,
        forall|i: int| 0 <= i < t.len() ==> is_digit(#[trigger] t[i]) || t[i] == '+' || t[i] == '-',
{
    let negative = allow_minus && t.len() > 0 && t[0] == '-';
    let signed = t.len() > 0 && (t[0] == '+' || negative);
    if signed {
        assert forall|i: int| 0 <= i < t.len() implies is_digit(#[trigger] t[i]) || t[i] == '+'
            || t[i] == '-' by {
            if i > 0 {
                assert(t[i] == t.drop_first()[i - 1]);
            }
        }
    }
}

/// The digit characters are digits worth what they stand for.
proof fn lemma_digit_char(x: int)
    requires
        0 <= x < 10,
    ensures
        is_digit(digit_char(x)),
        digit_value(digit_char(x)) == x,
{
    assert(((48 + x) as u8) as int == 48 + x);
    assert((((48 + x) as u8) as char) as int == 48 + x);
}

/// The digit character for `d` in `0..10`.
pub open spec fn digit_char(d: int) -> char {
    ((48 + d) as u8) as char
}

/// The decimal numeral of `m`, without leading zeros.
pub open spec fn spec_digits(m: nat) -> Seq<char>
    decreases m,
{
    if m < 10 {
        seq![digit_char(m as int)]
    } else {
        spec_digits(m / 10) + seq![digit_char((m % 10) as int)]
    }
}

/// The decimal text of `n`, as `to_string` writes it.
pub open spec fn spec_decimal(n: int) -> Seq<char> {
    if n < 0 {
        seq!['-'] + spec_digits((-n) as nat)
    } else {
        spec_digits(n as nat)
    }
}

/// A numeral of digits is worth at least as much as any of its prefixes.
proof fn lemma_digits_value_prefix(d: Seq<char>, k: int)
    requires
        all_digits(d),
        0 <= k <= d.len(),
    ensures
        digits_value(d.take(k)) <= digits_value(d),
        0 <= digits_value(d),
    decreases d.len(),
{
    if d.len() == 0 {
    } else {
        let p = d.drop_last();
        assert(all_digits(p)) by {
            assert forall|i: int| 0 <= i < p.len() implies is_digit(#[trigger] p[i]) by {
                assert(p[i] == d[i]);
            }
        }
        assert(is_digit(d[d.len() - 1]));
        if k == d.len() {
            assert(d.take(k) == d);
            lemma_digits_value_prefix(p, 0);
        } else {
            lemma_digits_value_prefix(p, k);
            assert(p.take(k) == d.take(k));
        }
    }
}

/// Reads `t` as a decimal integer within `[-limit_neg, limit_pos]`;
/// `allow_minus` admits a leading `-`.
fn parse_bounded(t: &Vec<char>, allow_minus: bool, limit: u64) -> (r: Option<i64>)
    requires
        limit <= u32::MAX,
    ensures
        r matches Some(v) ==> spec_parse_integer(t@, allow_minus) == Some(v as int) && -(limit
            as int) <= v <= limit && (!allow_minus ==> v >= 0),
        r is None ==> match spec_parse_integer(t@, allow_minus) {
            Some(v) => v < -(limit as int) || v > limit,
            None => true,
        },
{
    let n = t.len();
    let negative = allow_minus && n > 0 && t[0] == '-';
    let signed = n > 0 && (t[0] == '+' || negative);
    let begin: usize = if signed {
        1
    } else {
        0
    };
    let ghost d = if signed {
        t@.drop_first()
    } else {
        t@
    };
    assert(d == t@.skip(begin as int));
    if begin == n {
        return None;
    }
    let mut v: u64 = 0;
    let mut k: usize = begin;
    while k < n
        invariant
            begin <= k <= n == t.len(),
            begin < n,
            negative == (allow_minus && t@.len() > 0 && t@[0] == '-'),
            signed == (t@.len() > 0 && (t@[0] == '+' || negative)),
            begin == (if signed {
                1usize
            } else {
                0usize
            }),
            d == (if signed {
                t@.drop_first()
            } else {
                t@
            }),
            d == t@.skip(begin as int),
            limit <= u32::MAX,
            all_digits(d.take(k - begin)),
            v == digits_value(d.take(k - begin)),
            v <= limit,
        decreases n - k,
    {
        let c = t[k];
        if c < '0' || c > '9' {
            assert(!is_digit(d[k - begin]));
            return None;
        }
        let ghost before = d.take(k - begin);
        assert(d.take(k + 1 - begin).drop_last() == before);
        assert(d.take(k + 1 - begin).last() == c);
        let digit = (c as u32 - '0' as u32) as u64;
        v = v * 10 + digit;
        k = k + 1;
        assert(all_digits(d.take(k - begin))) by {
            assert forall|i: int| 0 <= i < d.take(k - begin).len() implies is_digit(
                #[trigger] d.take(k - begin)[i],
            ) by {
                if i < before.len() {
                    assert(d.take(k - begin)[i] == before[i]);
                }
            }
        }
        if v > limit {
            proof {
                if all_digits(d) {
                    lemma_digits_value_prefix(d, k - begin);
                }
            }
            return None;
        }
    }
    assert(d.take(n - begin) == d);
    if negative {
        Some(-(v as i64))
    } else {
        Some(v as i64)
    }
}

/// `t.parse::<i32>()`, as an option.
pub fn parse_i32(t: &Vec<char>) -> (r: Option<i32>)
    ensures
        r == spec_parse_i32(t@),
{
    match parse_bounded(t, true, 2147483648) {
        Some(v) => if v <= 2147483647 {
            Some(v as i32)
        } else {
            None
        },
        None => None,
    }
}

/// `t.parse::<u32>()`, as an option.
pub fn parse_u32(t: &Vec<char>) -> (r: Option<u32>)
    ensures
        r == spec_parse_u32(t@),
{
    match parse_bounded(t, false, 4294967295) {
        Some(v) => {
            assert(v >= 0);
            Some(v as u32)
        },
        None => None,
    }
}

/// The digit character for `d`.
fn digit_char_exec(d: u64) -> (c: char)
    requires
        d < 10,
    ensures
        c == digit_char(d as int),
{
    ((48 + d) as u8) as char
}

/// The decimal text of `n`, as `n.to_string()` writes it.
pub fn i32_to_string(n: i32) -> (r: String)
    ensures
        r@ == spec_decimal(n as int),
{
    let negative = n < 0;
    let wide = n as i64;
    let mut m: u64 = if negative {
        (-wide) as u64
    } else {
        wide as u64
    };
    let ghost whole: nat = m as nat;
    let mut acc: Vec<char> = Vec::new();
    while m >= 10
        invariant
            spec_digits(whole) == spec_digits(m as nat) + acc@,
        decreases m,
    {
        let c = digit_char_exec(m % 10);
        let ghost before = acc@;
        acc.insert(0, c);
        assert(acc@ == seq![c] + before);
        assert(spec_digits(m as nat) == spec_digits((m / 10) as nat) + seq![c]);
        m = m / 10;
    }
    let c = digit_char_exec(m);
    acc.insert(0, c);
    let mut out: Vec<char> = Vec::new();
    if negative {
        out.push('-');
    }
    let ghost prefix = out@;
    for i in 0..acc.len()
        invariant
            out@ == prefix + acc@.take(i as int),
    {
        out.push(acc[i]);
        assert(acc@.take(i + 1) == acc@.take(i as int).push(acc@[i as int]));
    }
    assert(acc@.take(acc.len() as int) == acc@);
    crate::text::string_of(&out)
}

/// The decimal numeral of `m` is a non-empty string of digits worth `m`.
pub proof fn lemma_digits_read_back(m: nat)
    ensures
        spec_digits(m).len() > 0,
        all_digits(spec_digits(m)),
        digits_value(spec_digits(m)) == m,
    decreases m,
{
    if m < 10 {
        lemma_digit_char(m as int);
        let s = spec_digits(m);
        assert(s.drop_last() == Seq::<char>::empty());
        assert(digits_value(Seq::<char>::empty()) == 0);
        assert(digits_value(s) == digit_value(s.last()));
    } else {
        lemma_digit_char((m % 10) as int);
        lemma_digits_read_back(m / 10);
        let s = spec_digits(m);
        let p = spec_digits(m / 10);
        assert(s == p + seq![digit_char((m % 10) as int)]);
        assert(s.drop_last() == p);
        assert(s.last() == digit_char((m % 10) as int));
        assert(digits_value(s) == digits_value(p) * 10 + (m % 10) as int);
        assert(m == (m / 10) * 10 + m % 10);
        assert(all_digits(s)) by {
            assert forall|i: int| 0 <= i < s.len() implies is_digit(#[trigger] s[i]) by {
                if i < p.len() {
                    assert(s[i] == p[i]);
                }
            }
        }
    }
}

/// Reading back what `i32_to_string` writes gives the same number.
pub proof fn lemma_parse_decimal_roundtrip(n: i32)
    ensures
        spec_parse_i32(spec_decimal(n as int)) == Some(n),
{
    if n < 0 {
        lemma_digits_read_back((-n) as nat);
        let t = spec_decimal(n as int);
        assert(t.drop_first() == spec_digits((-n) as nat));
    } else {
        lemma_digits_read_back(n as nat);
        let t = spec_digits(n as nat);
        assert(is_digit(t[0]));
    }
}

} // verus!
