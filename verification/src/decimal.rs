use vstd::prelude::*;

verus! {

/// An ASCII decimal digit.
pub open spec fn is_digit(c: char) -> bool {
    '0' <= c && c <= '9'
}

/// The value of an ASCII decimal digit.
pub open spec fn digit_value(c: char) -> int {
    (c as int) - ('0' as int)
}

/// Every character is an ASCII decimal digit.
pub open spec fn all_digits(s: Seq<char>) -> bool {
    forall|i: int| 0 <= i < s.len() ==> is_digit(#[trigger] s[i])
}

/// The number that a string of digits spells, most significant digit first.
pub open spec fn digits_value(s: Seq<char>) -> int
    decreases s.len(),
{
    if s.len() == 0 {
        0
    } else {
        10 * digits_value(s.drop_last()) + digit_value(s.last())
    }
}

/// The integer that a decimal numeral denotes: an optional `+` or `-`, then
/// one or more ASCII digits, nothing else. `None` for any other text.
pub open spec fn decimal_value(s: Seq<char>) -> Option<int> {
    if s.len() > 0 && (s[0] == '+' || s[0] == '-') {
        let d = s.drop_first();
        if d.len() > 0 && all_digits(d) {
            Some(if s[0] == '-' { -digits_value(d) } else { digits_value(d) })
        } else {
            None
        }
    } else if s.len() > 0 && all_digits(s) {
        Some(digits_value(s))
    } else {
        None
    }
}

/// What `str::parse` gives for a signed integer type whose range is `lo..=hi`:
/// the value of the numeral when there is one and it fits, else nothing.
pub open spec fn parse_in_range(s: Seq<char>, lo: int, hi: int) -> Option<int> {
    match decimal_value(s) {
        Some(v) => if lo <= v && v <= hi {
            Some(v)
        } else {
            None
        },
        None => None,
    }
}

/// The character of a decimal digit `0..=9`.
pub open spec fn digit_char(d: int) -> char {
    if d == 0 {
        '0'
    } else if d == 1 {
        '1'
    } else if d == 2 {
        '2'
    } else if d == 3 {
        '3'
    } else if d == 4 {
        '4'
    } else if d == 5 {
        '5'
    } else if d == 6 {
        '6'
    } else if d == 7 {
        '7'
    } else if d == 8 {
        '8'
    } else {
        '9'
    }
}

/// The decimal numeral of a natural number, without leading zeros.
pub open spec fn nat_decimal(n: nat) -> Seq<char>
    decreases n,
{
    if n < 10 {
        seq![digit_char(n as int)]
    } else {
        nat_decimal(n / 10).push(digit_char((n % 10) as int))
    }
}

/// How an integer is displayed: its decimal numeral, with `-` before a negative one.
pub open spec fn int_decimal(n: int) -> Seq<char> {
    if n < 0 {
        seq!['-'] + nat_decimal((-n) as nat)
    } else {
        nat_decimal(n as nat)
    }
}

proof fn lemma_digit_char(d: int)
    requires
        0 <= d < 10,
    ensures
        is_digit(digit_char(d)),
        digit_value(digit_char(d)) == d,
{
}

proof fn lemma_digits_value_nonneg(s: Seq<char>)
    requires
        all_digits(s),
    ensures
        digits_value(s) >= 0,
    decreases s.len(),
{
    if s.len() > 0 {
        lemma_digits_value_nonneg(s.drop_last());
    }
}

/// A string of digits is worth at least as much as any of its prefixes.
proof fn lemma_digits_value_prefix(s: Seq<char>, k: int)
    requires
        all_digits(s),
        0 <= k <= s.len(),
    ensures
        digits_value(s.subrange(0, k)) <= digits_value(s),
    decreases s.len(),
{
    if k < s.len() {
        lemma_digits_value_prefix(s.drop_last(), k);
        assert(s.drop_last().subrange(0, k) =~= s.subrange(0, k));
        lemma_digits_value_nonneg(s.drop_last());
    } else {
        assert(s.subrange(0, k) =~= s);
    }
}

proof fn lemma_nat_decimal(n: nat)
    ensures
        nat_decimal(n).len() > 0,
        all_digits(nat_decimal(n)),
        digits_value(nat_decimal(n)) == n,
    decreases n,
{
    if n < 10 {
        lemma_digit_char(n as int);
        let s = nat_decimal(n);
        assert(s.drop_last() =~= Seq::<char>::empty());
        assert(digits_value(s.drop_last()) == 0);
        assert(digits_value(s) == 10 * digits_value(s.drop_last()) + digit_value(s.last()));
    } else {
        lemma_nat_decimal(n / 10);
        lemma_digit_char((n % 10) as int);
        let s = nat_decimal(n);
        assert(s.drop_last() =~= nat_decimal(n / 10));
        assert(s.last() == digit_char((n % 10) as int));
        assert(digits_value(s) == 10 * digits_value(nat_decimal(n / 10)) + digit_value(s.last()));
        assert(10 * (n / 10) + n % 10 == n);
        assert forall|i: int| 0 <= i < s.len() implies is_digit(#[trigger] s[i]) by {
            if i < s.len() - 1 {
                assert(s[i] == nat_decimal(n / 10)[i]);
            }
        }
    }
}

/// Reading back the decimal form of an integer gives that integer.
pub proof fn lemma_decimal_roundtrip(n: int)
    ensures
        decimal_value(int_decimal(n)) == Some(n),
{
    if n < 0 {
        let m = (-n) as nat;
        lemma_nat_decimal(m);
        let s = int_decimal(n);
        assert(s.drop_first() =~= nat_decimal(m));
    } else {
        lemma_nat_decimal(n as nat);
        let s = nat_decimal(n as nat);
        assert(is_digit(s[0]));
    }
}

/// The decimal form of an integer holds only digits and `-`.
pub proof fn lemma_decimal_chars(n: int)
    ensures
        forall|i: int|
            0 <= i < int_decimal(n).len() ==> (is_digit(#[trigger] int_decimal(n)[i])
                || int_decimal(n)[i] == '-'),
{
    if n < 0 {
        lemma_nat_decimal((-n) as nat);
        let s = int_decimal(n);
        assert forall|i: int| 0 <= i < s.len() implies (is_digit(#[trigger] s[i]) || s[i] == '-') by {
            if i > 0 {
                assert(s[i] == nat_decimal((-n) as nat)[i - 1]);
            }
        }
    } else {
        lemma_nat_decimal(n as nat);
    }
}

fn is_ascii_digit(c: char) -> (b: bool)
    ensures
        b == is_digit(c),
{
    '0' <= c && c <= '9'
}

/// Reads a decimal numeral as `str::parse` does for a signed integer type
/// whose range is `lo..=hi`: an optional sign, then ASCII digits only.
pub fn parse_decimal_in_range(s: &str, lo: i64, hi: i64) -> (r: Option<i64>)
    requires
        lo <= 0 <= hi,
    ensures
        match r {
            Some(v) => parse_in_range(s@, lo as int, hi as int) == Some(v as int),
            None => parse_in_range(s@, lo as int, hi as int) is None,
        },
{
    let len = s.unicode_len();
    if len == 0 {
        return None;
    }
    let first = s.get_char(0);
    let negative = first == '-';
    let start: usize = if first == '+' || first == '-' {
        1
    } else {
        0
    };
    if start == len {
        return None;
    }
    let bound: u64 = if negative {
        (0 - (lo as i128)) as u64
    } else {
        hi as u64
    };
    let ghost digits = s@.subrange(start as int, len as int);
    proof {
        if start == 1 {
            assert(digits =~= s@.drop_first());
        } else {
            assert(digits =~= s@);
        }
    }
    let mut magnitude: u64 = 0;
    let mut i: usize = start;
    while i < len
        invariant
            len == s@.len(),
            start <= i <= len,
            start == 0 || start == 1,
            digits == s@.subrange(start as int, len as int),
            bound <= 0x8000_0000_0000_0000u64,
            lo <= 0 <= hi,
            s@.len() > 0,
            negative == (s@[0] == '-'),
            negative ==> bound as int == -lo,
            !negative ==> bound as int == hi,
            start == 1 ==> digits == s@.drop_first() && (s@[0] == '+' || s@[0] == '-'),
            start == 0 ==> digits == s@ && !(s@[0] == '+' || s@[0] == '-'),
            magnitude <= bound,
            all_digits(s@.subrange(start as int, i as int)),
            magnitude as int == digits_value(s@.subrange(start as int, i as int)),
        decreases len - i,
    {
        let c = s.get_char(i);
        if !is_ascii_digit(c) {
            proof {
                assert(digits[i - start] == c);
            }
            return None;
        }
        let d = (c as u32 - '0' as u32) as u64;
        proof {
            let prefix = s@.subrange(start as int, i + 1);
            assert(prefix.drop_last() =~= s@.subrange(start as int, i as int));
            assert(prefix.last() == c);
            assert forall|j: int| 0 <= j < prefix.len() implies is_digit(#[trigger] prefix[j]) by {
                if j < prefix.len() - 1 {
                    assert(prefix[j] == s@.subrange(start as int, i as int)[j]);
                }
            }
        }
        let next: u128 = (magnitude as u128) * 10 + (d as u128);
        if next > bound as u128 {
            proof {
                let prefix = s@.subrange(start as int, i + 1);
                if all_digits(digits) {
                    lemma_digits_value_prefix(digits, i + 1 - start);
                    assert(digits.subrange(0, i + 1 - start) =~= prefix);
                }
            }
            return None;
        }
        magnitude = next as u64;
        i = i + 1;
    }
    proof {
        assert(s@.subrange(start as int, len as int) =~= digits);
    }
    if negative {
        Some((0 - (magnitude as i128)) as i64)
    } else {
        Some(magnitude as i64)
    }
}

fn digit_str(d: u64) -> (s: &'static str)
    requires
        d < 10,
    ensures
        s@ == seq![digit_char(d as int)],
{
    if d == 0 {
        proof { reveal_strlit("0"); }
        "0"
    } else if d == 1 {
        proof { reveal_strlit("1"); }
        "1"
    } else if d == 2 {
        proof { reveal_strlit("2"); }
        "2"
    } else if d == 3 {
        proof { reveal_strlit("3"); }
        "3"
    } else if d == 4 {
        proof { reveal_strlit("4"); }
        "4"
    } else if d == 5 {
        proof { reveal_strlit("5"); }
        "5"
    } else if d == 6 {
        proof { reveal_strlit("6"); }
        "6"
    } else if d == 7 {
        proof { reveal_strlit("7"); }
        "7"
    } else if d == 8 {
        proof { reveal_strlit("8"); }
        "8"
    } else {
        proof { reveal_strlit("9"); }
        "9"
    }
}

fn push_nat_decimal(out: &mut String, n: u64)
    ensures
        final(out)@ == old(out)@ + nat_decimal(n as nat),
    decreases n,
{
    if n >= 10 {
        push_nat_decimal(out, n / 10);
    }
    out.append(digit_str(n % 10));
    proof {
        if n < 10 {
            assert(nat_decimal(n as nat) =~= seq![digit_char(n as int)]);
        }
    }
}

/// Appends the decimal form of `n`, as `Display` writes an integer.
pub fn push_decimal(out: &mut String, n: i64)
    ensures
        final(out)@ == old(out)@ + int_decimal(n as int),
{
    if n < 0 {
        proof { reveal_strlit("-"); }
        out.append("-");
        let magnitude: u64 = (0 - (n as i128)) as u64;
        push_nat_decimal(out, magnitude);
        proof {
            assert(final(out)@ =~= old(out)@ + int_decimal(n as int));
        }
    } else {
        push_nat_decimal(out, n as u64);
    }
}

} // verus!
