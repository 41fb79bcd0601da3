//! Scanning text: white space, trimming and searching.
use vstd::prelude::*;

verus! {

/// `char::is_whitespace`: the characters with the Unicode `White_Space`
/// property.
pub open spec fn is_whitespace(c: char) -> bool {
    ||| ('\t' <= c <= '\r')
    ||| c == ' '
    ||| c == '\u{85}'
    ||| c == '\u{a0}'
    ||| c == '\u{1680}'
    ||| ('\u{2000}' <= c <= '\u{200a}')
    ||| c == '\u{2028}'
    ||| c == '\u{2029}'
    ||| c == '\u{202f}'
    ||| c == '\u{205f}'
    ||| c == '\u{3000}'
}

pub fn is_whitespace_exec(c: char) -> (r: bool)
    ensures
        r == is_whitespace(c),
{
    ('\t' <= c && c <= '\r') || c == ' ' || c == '\u{85}' || c == '\u{a0}' || c == '\u{1680}'
        || ('\u{2000}' <= c && c <= '\u{200a}') || c == '\u{2028}' || c == '\u{2029}' || c == '\u{202f}'
        || c == '\u{205f}' || c == '\u{3000}'
}

/// The first position at or after `i` that is not white space.
pub open spec fn skip_ws(s: Seq<char>, i: int) -> int
    decreases s.len() - i,
{
    if i >= s.len() || i < 0 {
        i
    } else if is_whitespace(s[i]) {
        skip_ws(s, i + 1)
    } else {
        i
    }
}

/// The position after the last character before `j` that is not white
/// space, or `i` where there is none from `i` on.
pub open spec fn back_ws(s: Seq<char>, i: int, j: int) -> int
    decreases j - i,
{
    if j <= i {
        i
    } else if is_whitespace(s[j - 1]) {
        back_ws(s, i, j - 1)
    } else {
        j
    }
}

/// `str::trim`: the text without white space at either end.
pub open spec fn trim(s: Seq<char>) -> Seq<char> {
    let a = skip_ws(s, 0);
    s.subrange(a, back_ws(s, a, s.len() as int))
}

/// `str::trim_start`.
pub open spec fn trim_start(s: Seq<char>) -> Seq<char> {
    s.subrange(skip_ws(s, 0), s.len() as int)
}

pub proof fn lemma_skip_ws(s: Seq<char>, i: int)
    requires
        0 <= i <= s.len(),
    ensures
        i <= skip_ws(s, i) <= s.len(),
        forall|k: int| i <= k < skip_ws(s, i) ==> is_whitespace(#[trigger] s[k]),
        skip_ws(s, i) < s.len() ==> !is_whitespace(s[skip_ws(s, i)]),
    decreases s.len() - i,
{
    if i < s.len() && is_whitespace(s[i]) {
        lemma_skip_ws(s, i + 1);
    }
}

pub proof fn lemma_back_ws(s: Seq<char>, i: int, j: int)
    requires
        0 <= i <= j <= s.len(),
    ensures
        i <= back_ws(s, i, j) <= j,
        forall|k: int| back_ws(s, i, j) <= k < j ==> is_whitespace(#[trigger] s[k]),
        back_ws(s, i, j) > i ==> !is_whitespace(s[back_ws(s, i, j) - 1]),
    decreases j - i,
{
    if j > i && is_whitespace(s[j - 1]) {
        lemma_back_ws(s, i, j - 1);
    }
}

pub proof fn lemma_trim_len(s: Seq<char>)
    ensures
        trim(s).len() <= s.len(),
{
    lemma_skip_ws(s, 0);
    lemma_back_ws(s, skip_ws(s, 0), s.len() as int);
}

pub fn skip_ws_exec(s: &Vec<char>, i: usize) -> (r: usize)
    requires
        i <= s@.len(),
    ensures
        r == skip_ws(s@, i as int),
{
    let mut j = i;
    while j < s.len() && is_whitespace_exec(s[j])
        invariant
            i <= j <= s@.len(),
            skip_ws(s@, i as int) == skip_ws(s@, j as int),
        decreases s@.len() - j,
    {
        j = j + 1;
    }
    j
}

pub fn back_ws_exec(s: &Vec<char>, i: usize, j: usize) -> (r: usize)
    requires
        i <= j <= s@.len(),
    ensures
        r == back_ws(s@, i as int, j as int),
{
    let mut k = j;
    while k > i && is_whitespace_exec(s[k - 1])
        invariant
            i <= k <= j,
            j <= s@.len(),
            back_ws(s@, i as int, j as int) == back_ws(s@, i as int, k as int),
        decreases k - i,
    {
        k = k - 1;
    }
    k
}

/// The characters from `a` to `b`.
pub fn slice(s: &Vec<char>, a: usize, b: usize) -> (r: Vec<char>)
    requires
        a <= b <= s@.len(),
    ensures
        r@ == s@.subrange(a as int, b as int),
{
    let mut r: Vec<char> = Vec::new();
    let mut k = a;
    while k < b
        invariant
            a <= k <= b,
            b <= s@.len(),
            r@ == s@.subrange(a as int, k as int),
        decreases b - k,
    {
        r.push(s[k]);
        k = k + 1;
        proof {
            assert(r@ == s@.subrange(a as int, k as int));
        }
    }
    r
}

/// `str::trim`.
pub fn trim_exec(s: &Vec<char>) -> (r: Vec<char>)
    ensures
        r@ == trim(s@),
{
    let a = skip_ws_exec(s, 0);
    proof {
        lemma_skip_ws(s@, 0);
    }
    let b = back_ws_exec(s, a, s.len());
    proof {
        lemma_back_ws(s@, a as int, s@.len() as int);
    }
    slice(s, a, b)
}

/// `pat` stands at position `k`.
pub open spec fn matches_at(s: Seq<char>, k: int, pat: Seq<char>) -> bool {
    0 <= k && k + pat.len() <= s.len() && s.subrange(k, k + pat.len()) == pat
}

/// The first position at or after `j` where `pat` stands.
pub open spec fn find_from(s: Seq<char>, pat: Seq<char>, j: int) -> Option<int>
    decreases s.len() + 1 - j,
{
    if j < 0 || j + pat.len() > s.len() {
        None
    } else if matches_at(s, j, pat) {
        Some(j)
    } else {
        find_from(s, pat, j + 1)
    }
}

pub proof fn lemma_find_from(s: Seq<char>, pat: Seq<char>, j: int)
    requires
        0 <= j,
    ensures
        match find_from(s, pat, j) {
            Some(k) => j <= k && k + pat.len() <= s.len() && matches_at(s, k, pat)
                && forall|m: int| j <= m < k ==> !#[trigger] matches_at(s, m, pat),
            None => forall|m: int| j <= m ==> !#[trigger] matches_at(s, m, pat),
        },
    decreases s.len() + 1 - j,
{
    if j + pat.len() <= s.len() && !matches_at(s, j, pat) {
        lemma_find_from(s, pat, j + 1);
    }
}

pub fn matches_at_exec(s: &Vec<char>, k: usize, pat: &Vec<char>) -> (r: bool)
    ensures
        r == matches_at(s@, k as int, pat@),
{
    let n = s.len();
    if k > n || pat.len() > n - k {
        return false;
    }
    let mut i: usize = 0;
    while i < pat.len()
        invariant
            n == s@.len(),
            k + pat@.len() <= n,
            i <= pat@.len(),
            forall|m: int| 0 <= m < i ==> s@[k + m] == pat@[m],
        decreases pat@.len() - i,
    {
        if s[k + i] != pat[i] {
            assert(s@.subrange(k as int, k + pat@.len())[i as int] != pat@[i as int]);
            return false;
        }
        i = i + 1;
    }
    assert(s@.subrange(k as int, k + pat@.len()) =~= pat@);
    true
}

/// `str::find` from position `j` on.
pub fn find_from_exec(s: &Vec<char>, pat: &Vec<char>, j: usize) -> (r: Option<usize>)
    requires
        j <= s@.len(),
    ensures
        match r {
            Some(k) => find_from(s@, pat@, j as int) == Some(k as int),
            None => find_from(s@, pat@, j as int) is None,
        },
{
    let n = s.len();
    let mut k = j;
    while k < n && pat.len() <= n - k
        invariant
            n == s@.len(),
            j <= k <= n,
            find_from(s@, pat@, j as int) == find_from(s@, pat@, k as int),
        decreases n - k,
    {
        if matches_at_exec(s, k, pat) {
            return Some(k);
        }
        k = k + 1;
    }
    if pat.len() <= n - k && matches_at_exec(s, k, pat) {
        return Some(k);
    }
    assert(find_from(s@, pat@, k + 1) is None);
    None
}

} // verus!
