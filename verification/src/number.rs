//! Decimal numbers as scripts write them, and fixed-width hex digits.
use vstd::prelude::*;

verus! {

pub open spec fn is_digit(c: char) -> bool {
    '0' <= c <= '9'
}

pub open spec fn all_digits(s: Seq<char>) -> bool {
    forall|i: int| 0 <= i < s.len() ==> #[trigger] is_digit(s[i])
}

/// The decimal value of a run of digits.
pub open spec fn digits_value(s: Seq<char>) -> nat
    decreases s.len(),
{
    if s.len() == 0 {
        0
    } else {
        digits_value(s.drop_last()) * 10 + (s.last() as nat - '0' as nat) as nat
    }
}

/// The digits of an unsigned number: an optional leading `+` is dropped.
pub open spec fn unsigned_digits(s: Seq<char>) -> Seq<char> {
    if s.len() > 0 && s[0] == '+' {
        s.drop_first()
    } else {
        s
    }
}

/// What `str::parse` gives for an unsigned integer type whose largest value
/// is `max`: an optional `+` and one or more digits, and a value that fits.
pub open spec fn parse_unsigned(s: Seq<char>, max: nat) -> Option<nat> {
    let d = unsigned_digits(s);
    if d.len() > 0 && all_digits(d) && digits_value(d) <= max {
        Some(digits_value(d))
    } else {
        None
    }
}

pub proof fn lemma_digits_value_grows(s: Seq<char>, j: int, i: int)
    requires
        0 <= j <= i <= s.len(),
        all_digits(s),
    ensures
        digits_value(s.take(j)) <= digits_value(s.take(i)),
    decreases i - j,
{
    if j < i {
        lemma_digits_value_grows(s, j, i - 1);
        assert(s.take(i).drop_last() =~= s.take(i - 1));
        assert(is_digit(s[i - 1]));
    }
}

/// Parses an unsigned decimal number no larger than `max`, as `str::parse`
/// does for the integer type whose largest value that is.
pub fn parse_unsigned_exec(s: &Vec<char>, max: u64) -> (r: Option<u64>)
    ensures
        match parse_unsigned(s@, max as nat) {
            Some(v) => r == Some(v as u64),
            None => r is None,
        },
{
    let n = s.len();
    let mut start: usize = 0;
    if n > 0 && s[0] == '+' {
        start = 1;
    }
    let ghost d = unsigned_digits(s@);
    assert(d =~= s@.subrange(start as int, n as int));
    if start >= n {
        return None;
    }
    let mut value: u64 = 0;
    let mut k: usize = start;
    while k < n
        invariant
            n == s@.len(),
            start <= k <= n,
            d == s@.subrange(start as int, n as int),
            d == unsigned_digits(s@),
            all_digits(d.take(k - start)),
            value == digits_value(d.take(k - start)),
            value <= max,
        decreases n - k,
    {
        let c = s[k];
        if !('0' <= c && c <= '9') {
            assert(!is_digit(d[k - start]));
            assert(!all_digits(d));
            return None;
        }
        let digit = (c as u64) - ('0' as u64);
        proof {
            assert(d.take(k + 1 - start).drop_last() =~= d.take(k - start));
            assert(d.take(k + 1 - start).last() == c);
            assert forall|i: int| 0 <= i < k + 1 - start implies #[trigger] is_digit(d.take(k + 1 - start)[i]) by {
                if i < k - start {
                    assert(d.take(k + 1 - start)[i] == d.take(k - start)[i]);
                }
            };
        }
        if digit > max || value > (max - digit) / 10 {
            proof {
                if digit <= max {
                    assert(value * 10 + digit > max) by (nonlinear_arith)
                        requires
                            value > (max - digit) / 10,
                            digit <= max,
                    ;
                }
                if all_digits(d) {
                    lemma_digits_value_grows(d, k + 1 - start, d.len() as int);
                    assert(d.take(d.len() as int) =~= d);
                }
            }
            return None;
        }
        value = value * 10 + digit;
        k = k + 1;
    }
    assert(d.take(n - start) =~= d);
    Some(value)
}

pub open spec fn hex_char(d: nat) -> char {
    if d < 10 {
        ('0' as nat + d) as char
    } else {
        ('a' as nat + d - 10) as char
    }
}

/// The `count` lowest hex digits of `n`, lower case, most significant first.
pub open spec fn hex_fixed(n: nat, count: nat) -> Seq<char>
    decreases count,
{
    if count == 0 {
        Seq::empty()
    } else {
        hex_fixed(n / 16, (count - 1) as nat).push(hex_char(n % 16))
    }
}

/// `n` as `count` lower-case hex digits, zero padded on the left.
pub fn hex_fixed_exec(n: u64, count: usize) -> (r: Vec<char>)
    ensures
        r@ == hex_fixed(n as nat, count as nat),
    decreases count,
{
    if count == 0 {
        return Vec::new();
    }
    let mut v = hex_fixed_exec(n / 16, count - 1);
    let d = n % 16;
    let c = if d < 10 {
        (('0' as u8) + (d as u8)) as char
    } else {
        (('a' as u8) + (d as u8) - 10) as char
    };
    v.push(c);
    v
}

/// `hex_fixed` gives `count` digits, each a lower-case hex digit.
pub proof fn lemma_hex_fixed(n: nat, count: nat)
    ensures
        hex_fixed(n, count).len() == count,
        forall|i: int| 0 <= i < count ==> {
            let c = #[trigger] hex_fixed(n, count)[i];
            ('0' <= c <= '9') || ('a' <= c <= 'f')
        },
    decreases count,
{
    if count > 0 {
        lemma_hex_fixed(n / 16, (count - 1) as nat);
        let d = n % 16;
        assert(hex_fixed(n, count)[count - 1] == hex_char(d));
        assert forall|i: int| 0 <= i < count - 1 implies #[trigger] hex_fixed(n, count)[i] == hex_fixed(n / 16, (count - 1) as nat)[i] by {};
    }
}

} // verus!
