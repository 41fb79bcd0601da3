use vstd::prelude::*;
use crate::text::{chars_of, string_from_chars};

verus! {

#[derive(Clone, Copy, Debug, PartialEq, Eq, Structural)]
pub enum StringError {
    /// The default is not enclosed in double quotes.
    NotQuoted,
    /// A backslash ends the string.
    IncompleteEscape,
    /// A numeric escape above 127.
    NonAsciiEscape,
    /// A backslash before a character that has no escape.
    InvalidEscape,
    /// The decoded string holds NUL.
    Nul,
}

/// The character a one-letter escape stands for, if `e` is one.
pub open spec fn simple_escape(e: char) -> Option<char> {
    if e == 'a' {
        Some('\x07')
    } else if e == 'b' {
        Some('\x08')
    } else if e == 'f' {
        Some('\x0c')
    } else if e == 'n' {
        Some('\n')
    } else if e == 'r' {
        Some('\r')
    } else if e == 't' {
        Some('\t')
    } else if e == 'v' {
        Some('\x0b')
    } else if e == '\\' {
        Some('\\')
    } else if e == '"' {
        Some('"')
    } else {
        None
    }
}

pub open spec fn is_digit(c: char) -> bool {
    '0' <= c <= '9'
}

pub open spec fn digit_value(c: char) -> int {
    c as int - '0' as int
}

/// The number of digits (at most `limit`) starting at `i`.
pub open spec fn digit_run(s: Seq<char>, i: int, limit: nat) -> nat
    decreases limit,
{
    if limit == 0 || i >= s.len() || !is_digit(s[i]) {
        0
    } else {
        1 + digit_run(s, i + 1, (limit - 1) as nat)
    }
}

/// The decimal value of the `count` digits starting at `i`.
pub open spec fn digits_number(s: Seq<char>, i: int, count: nat) -> int
    decreases count,
{
    if count == 0 {
        0
    } else {
        digits_number(s, i, (count - 1) as nat) * 10 + digit_value(s[i + count - 1])
    }
}

/// Decodes the body of a `%q`-quoted Lua string from position `i` on.
pub open spec fn decode_from(s: Seq<char>, i: int) -> Result<Seq<char>, StringError>
    decreases s.len() - i,
{
    if i >= s.len() || i < 0 {
        Ok(Seq::empty())
    } else if s[i] != '\\' {
        match decode_from(s, i + 1) {
            Ok(rest) => Ok(seq![s[i]] + rest),
            Err(e) => Err(e),
        }
    } else if i + 1 >= s.len() {
        Err(StringError::IncompleteEscape)
    } else {
        let e = s[i + 1];
        if simple_escape(e) is Some {
            match decode_from(s, i + 2) {
                Ok(rest) => Ok(seq![simple_escape(e)->0] + rest),
                Err(err) => Err(err),
            }
        } else if is_digit(e) {
            let count = 1 + digit_run(s, i + 2, 2);
            proof {
                lemma_digit_run_bounds(s, i + 2, 2);
            }
            let number = digits_number(s, i + 1, count);
            if number >= 128 {
                Err(StringError::NonAsciiEscape)
            } else {
                match decode_from(s, i + 1 + count) {
                    Ok(rest) => Ok(seq![(number as u32) as char] + rest),
                    Err(err) => Err(err),
                }
            }
        } else {
            Err(StringError::InvalidEscape)
        }
    }
}

/// Reads back a default that a script normalised with `string.format("%q")`.
pub open spec fn spec_decode_parameter_string(value: Seq<char>) -> Result<Seq<char>, StringError> {
    if !(value.len() >= 2 && value[0] == '"' && value[value.len() - 1] == '"') {
        Err(StringError::NotQuoted)
    } else {
        match decode_from(value.subrange(1, value.len() - 1), 0) {
            Ok(r) => if r.contains('\0') {
                Err(StringError::Nul)
            } else {
                Ok(r)
            },
            Err(e) => Err(e),
        }
    }
}

pub proof fn lemma_digit_run_bounds(s: Seq<char>, i: int, limit: nat)
    requires
        0 <= i,
    ensures
        digit_run(s, i, limit) <= limit,
        i + digit_run(s, i, limit) <= s.len() || digit_run(s, i, limit) == 0,
        forall|k: int| 0 <= k < digit_run(s, i, limit) ==> #[trigger] is_digit(s[i + k]),
        digit_run(s, i, limit) < limit ==> i + digit_run(s, i, limit) >= s.len() || !is_digit(s[i + digit_run(s, i, limit)]),
    decreases limit,
{
    if !(limit == 0 || i >= s.len() || !is_digit(s[i])) {
        lemma_digit_run_bounds(s, i + 1, (limit - 1) as nat);
        assert forall|k: int| 0 <= k < digit_run(s, i, limit) implies #[trigger] is_digit(s[i + k]) by {
            if k > 0 {
                assert(is_digit(s[(i + 1) + (k - 1)]));
            }
        };
    }
}

pub proof fn lemma_digit_run_exact(s: Seq<char>, i: int, limit: nat, count: nat)
    requires
        0 <= i,
        count <= limit,
        i + count <= s.len(),
        forall|k: int| 0 <= k < count ==> #[trigger] is_digit(s[i + k]),
        count == limit || i + count == s.len() || !is_digit(s[i + count]),
    ensures
        digit_run(s, i, limit) == count,
    decreases count,
{
    if count > 0 {
        assert(is_digit(s[i + 0]));
        assert forall|k: int| 0 <= k < count - 1 implies #[trigger] is_digit(s[(i + 1) + k]) by {
            assert(is_digit(s[i + (k + 1)]));
        };
        lemma_digit_run_exact(s, i + 1, (limit - 1) as nat, (count - 1) as nat);
    }
}

fn simple_escape_exec(e: char) -> (r: Option<char>)
    ensures
        r == simple_escape(e),
{
    if e == 'a' {
        Some('\x07')
    } else if e == 'b' {
        Some('\x08')
    } else if e == 'f' {
        Some('\x0c')
    } else if e == 'n' {
        Some('\n')
    } else if e == 'r' {
        Some('\r')
    } else if e == 't' {
        Some('\t')
    } else if e == 'v' {
        Some('\x0b')
    } else if e == '\\' {
        Some('\\')
    } else if e == '"' {
        Some('"')
    } else {
        None
    }
}

/// Decodes a Lua string body, escape by escape.
pub fn decode_body(s: &Vec<char>) -> (r: Result<Vec<char>, StringError>)
    ensures
        match (decode_from(s@, 0), r) {
            (Ok(v), Ok(w)) => w@ == v,
            (Err(a), Err(b)) => a == b,
            _ => false,
        },
{
    let mut result: Vec<char> = Vec::new();
    let mut i: usize = 0;
    while i < s.len()
        invariant
            i <= s@.len(),
            match decode_from(s@, 0) {
                Ok(v) => decode_from(s@, i as int) matches Ok(rest) && v == result@ + rest,
                Err(e) => decode_from(s@, i as int) == Err::<Seq<char>, StringError>(e),
            },
        decreases s@.len() - i,
    {
        let c = s[i];
        if c != '\\' {
            result.push(c);
            i = i + 1;
            proof {
                assert(result@ == result@.drop_last() + seq![c]);
            }
        } else {
            if i + 1 >= s.len() {
                return Err(StringError::IncompleteEscape);
            }
            let e = s[i + 1];
            match simple_escape_exec(e) {
                Some(mapped) => {
                    result.push(mapped);
                    i = i + 2;
                },
                None => {
                    if !('0' <= e && e <= '9') {
                        return Err(StringError::InvalidEscape);
                    }
                    proof {
                        lemma_digit_run_bounds(s@, i + 2, 2);
                        assert(digits_number(s@, i + 1, 0) == 0);
                    }
                    let mut number: u32 = (e as u32) - ('0' as u32);
                    let mut j: usize = i + 2;
                    while j - i < 4 && j < s.len() && '0' <= s[j] && s[j] <= '9'
                        invariant
                            i + 2 <= j <= i + 4,
                            j <= s@.len(),
                            i + 1 < s@.len(),
                            forall|k: int| i + 1 <= k < j ==> #[trigger] is_digit(s@[k]),
                            number == digits_number(s@, i + 1, (j - i - 1) as nat),
                            j == i + 2 ==> number < 10,
                            j == i + 3 ==> number < 100,
                            number < 1000,
                        decreases i + 4 - j,
                    {
                        number = number * 10 + ((s[j] as u32) - ('0' as u32));
                        j = j + 1;
                    }
                    assert(digit_run(s@, i + 2, 2) == j - i - 2) by {
                        lemma_digit_run_exact(s@, i as int + 2, 2, (j - i - 2) as nat);
                    };
                    if number >= 128 {
                        return Err(StringError::NonAsciiEscape);
                    }
                    let ch = (number as u8) as char;
                    assert(ch == (digits_number(s@, i + 1, 1 + digit_run(s@, i + 2, 2)) as u32) as char);
                    result.push(ch);
                    i = j;
                },
            }
        }
    }
    Ok(result)
}

/// Reads back a string default that a script normalised with
/// `string.format("%q")`: the quotes are stripped, each escape decoded, and a
/// result that holds NUL is refused.
pub fn decode_parameter_string(value: &str) -> (r: Result<String, StringError>)
    ensures
        match (spec_decode_parameter_string(value@), r) {
            (Ok(v), Ok(w)) => w@ == v,
            (Err(a), Err(b)) => a == b,
            _ => false,
        },
{
    let chars = chars_of(value);
    let n = chars.len();
    if n < 2 || chars[0] != '"' || chars[n - 1] != '"' {
        return Err(StringError::NotQuoted);
    }
    let mut inner: Vec<char> = Vec::new();
    let mut k: usize = 1;
    while k < n - 1
        invariant
            chars@ == value@,
            n == chars@.len(),
            2 <= n,
            1 <= k <= n - 1,
            inner@ == chars@.subrange(1, k as int),
        decreases n - 1 - k,
    {
        inner.push(chars[k]);
        k = k + 1;
        proof {
            assert(inner@ == chars@.subrange(1, k as int));
        }
    }
    assert(inner@ == value@.subrange(1, value@.len() - 1));
    let decoded = match decode_body(&inner) {
        Ok(d) => d,
        Err(e) => return Err(e),
    };
    let mut m: usize = 0;
    while m < decoded.len()
        invariant
            m <= decoded@.len(),
            forall|q: int| 0 <= q < m ==> decoded@[q] != '\0',
            decode_from(value@.subrange(1, value@.len() - 1), 0) == Ok::<Seq<char>, StringError>(decoded@),
            spec_decode_parameter_string(value@) == (if decoded@.contains('\0') {
                Err::<Seq<char>, StringError>(StringError::Nul)
            } else {
                Ok(decoded@)
            }),
        decreases decoded@.len() - m,
    {
        if decoded[m] == '\0' {
            assert(decoded@.contains('\0'));
            return Err(StringError::Nul);
        }
        m = m + 1;
    }
    assert(!decoded@.contains('\0'));
    Ok(string_from_chars(decoded))
}

/// The character that a backslash before `e` stands for in a plain
/// Lua-style string default, if the pair is an escape at all.
pub open spec fn plain_escape(e: char) -> Option<char> {
    if e == 'n' {
        Some('\n')
    } else if e == 'r' {
        Some('\r')
    } else if e == 't' {
        Some('\t')
    } else if e == '\\' {
        Some('\\')
    } else if e == '"' {
        Some('"')
    } else if e == '\'' {
        Some('\'')
    } else {
        None
    }
}

/// `s` without its enclosing pair of matching quotes, where it has one.
pub open spec fn unquoted(s: Seq<char>) -> Seq<char> {
    if s.len() >= 1 && ((s[0] == '"' && s.last() == '"') || (s[0] == '\'' && s.last() == '\'')) {
        if s.len() == 1 {
            Seq::empty()
        } else {
            s.subrange(1, s.len() - 1)
        }
    } else {
        s
    }
}

/// Replaces each known escape from position `i` on; any other backslash
/// stays as it is.
pub open spec fn unescape_from(s: Seq<char>, i: int) -> Seq<char>
    decreases s.len() - i,
{
    if i < 0 || i >= s.len() {
        Seq::empty()
    } else if s[i] == '\\' && i + 1 < s.len() && plain_escape(s[i + 1]) is Some {
        seq![plain_escape(s[i + 1])->0] + unescape_from(s, i + 2)
    } else {
        seq![s[i]] + unescape_from(s, i + 1)
    }
}

pub open spec fn spec_unescape_string(s: Seq<char>) -> Seq<char> {
    unescape_from(unquoted(s), 0)
}

fn plain_escape_exec(e: char) -> (r: Option<char>)
    ensures
        r == plain_escape(e),
{
    if e == 'n' {
        Some('\n')
    } else if e == 'r' {
        Some('\r')
    } else if e == 't' {
        Some('\t')
    } else if e == '\\' {
        Some('\\')
    } else if e == '"' {
        Some('"')
    } else if e == '\'' {
        Some('\'')
    } else {
        None
    }
}

/// Strips one pair of enclosing quotes and replaces the escapes `\n`, `\r`,
/// `\t`, `\\`, `\"` and `\'`; this never fails.
pub fn unescape_string(s: &str) -> (r: String)
    ensures
        r@ == spec_unescape_string(s@),
{
    let all = chars_of(s);
    let n = all.len();
    let mut t: Vec<char> = Vec::new();
    if n >= 1 && ((all[0] == '"' && all[n - 1] == '"') || (all[0] == '\'' && all[n - 1] == '\'')) {
        let mut k: usize = 1;
        while k + 1 < n
            invariant
                n == all@.len(),
                1 <= n,
                1 <= k <= n,
                k + 1 >= n ==> k == 1 || k == n - 1,
                k > 1 ==> k <= n - 1,
                t@ == all@.subrange(1, k as int),
            decreases n - k,
        {
            t.push(all[k]);
            k = k + 1;
            proof {
                assert(t@ == all@.subrange(1, k as int));
            }
        }
        assert(t@ == unquoted(all@));
    } else {
        t = all;
    }
    let ghost u = t@;
    assert(u == unquoted(s@));
    let mut result: Vec<char> = Vec::new();
    let mut i: usize = 0;
    while i < t.len()
        invariant
            u == t@,
            i <= t@.len(),
            result@ + unescape_from(u, i as int) == unescape_from(u, 0),
        decreases t@.len() - i,
    {
        let c = t[i];
        let mut mapped: Option<char> = None;
        if c == '\\' && i + 1 < t.len() {
            mapped = plain_escape_exec(t[i + 1]);
        }
        match mapped {
            Some(m) => {
                proof {
                    assert(unescape_from(u, i as int) == seq![m] + unescape_from(u, i + 2));
                    assert(result@.push(m) + unescape_from(u, i + 2) == result@ + unescape_from(u, i as int));
                }
                result.push(m);
                i = i + 2;
            },
            None => {
                proof {
                    assert(unescape_from(u, i as int) == seq![c] + unescape_from(u, i + 1));
                    assert(result@.push(c) + unescape_from(u, i + 1) == result@ + unescape_from(u, i as int));
                }
                result.push(c);
                i = i + 1;
            },
        }
    }
    assert(unescape_from(u, i as int) == Seq::<char>::empty());
    assert(result@ == result@ + Seq::<char>::empty());
    string_from_chars(result)
}

} // verus!
