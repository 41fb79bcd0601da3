//! Lines of a script and the `--rikky_modoki:` style markers that stand on
//! them: a line starts at the beginning of the text or after `\n` and runs
//! up to the next `\n`; a `\r` just before that `\n` ends the line too.
use vstd::prelude::*;

verus! {

pub open spec fn is_line_start(s: Seq<char>, p: int) -> bool {
    0 <= p <= s.len() && (p == 0 || s[p - 1] == '\n')
}

/// The first `\n` at or after `p`, or the end of the text.
pub open spec fn line_end(s: Seq<char>, p: int) -> int
    decreases s.len() - p,
{
    if p >= s.len() {
        s.len() as int
    } else if s[p] == '\n' {
        p
    } else {
        line_end(s, p + 1)
    }
}

pub open spec fn has_prefix_at(s: Seq<char>, p: int, key: Seq<char>) -> bool {
    0 <= p && p + key.len() <= s.len() && s.subrange(p, p + key.len()) == key
}

/// The line at `p` is `key` followed by a value that holds no `\r` but for
/// one at its very end.
#[verifier::opaque]
pub open spec fn marker_line(s: Seq<char>, p: int, key: Seq<char>) -> bool {
    &&& is_line_start(s, p)
    &&& has_prefix_at(s, p, key)
    &&& p + key.len() <= line_end(s, p)
    &&& forall|q: int| p + key.len() <= q < line_end(s, p) - 1 ==> s[q] != '\r'
}

/// What a marker line is, but for the characters of its value.
pub broadcast proof fn lemma_marker_line_basics(s: Seq<char>, p: int, key: Seq<char>)
    ensures
        #[trigger] marker_line(s, p, key) ==> is_line_start(s, p) && has_prefix_at(s, p, key)
            && p + key.len() <= line_end(s, p),
{
    reveal(marker_line);
}

/// The value of the marker at `p`, a final `\r` left out.
pub open spec fn marker_value(s: Seq<char>, p: int, key: Seq<char>) -> Seq<char> {
    let e = line_end(s, p);
    if e > p + key.len() && s[e - 1] == '\r' {
        s.subrange(p + key.len(), e - 1)
    } else {
        s.subrange(p + key.len(), e)
    }
}

pub open spec fn no_marker_in(s: Seq<char>, key: Seq<char>, a: int, b: int) -> bool {
    forall|q: int| a <= q < b ==> !#[trigger] marker_line(s, q, key)
}

pub proof fn lemma_line_end_bounds(s: Seq<char>, p: int)
    requires
        0 <= p <= s.len(),
    ensures
        p <= line_end(s, p) <= s.len(),
        line_end(s, p) < s.len() ==> s[line_end(s, p)] == '\n',
        forall|q: int| p <= q < line_end(s, p) ==> s[q] != '\n',
    decreases s.len() - p,
{
    if p < s.len() && s[p] != '\n' {
        lemma_line_end_bounds(s, p + 1);
    }
}

/// `line_end` is the first `\n` from `p` on.
pub proof fn lemma_line_end_is_first(s: Seq<char>, p: int, e: int)
    requires
        0 <= p <= e <= s.len(),
        e == s.len() || s[e] == '\n',
        forall|q: int| p <= q < e ==> s[q] != '\n',
    ensures
        line_end(s, p) == e,
    decreases e - p,
{
    if p < e {
        lemma_line_end_is_first(s, p + 1, e);
    }
}

/// The first `\n` at or after `p`, or the end of the text.
pub fn line_end_exec(s: &Vec<char>, p: usize) -> (r: usize)
    requires
        p <= s@.len(),
    ensures
        r == line_end(s@, p as int),
{
    let mut q = p;
    while q < s.len() && s[q] != '\n'
        invariant
            p <= q <= s@.len(),
            forall|k: int| p <= k < q ==> s@[k] != '\n',
        decreases s@.len() - q,
    {
        q = q + 1;
    }
    proof {
        lemma_line_end_is_first(s@, p as int, q as int);
    }
    q
}

pub fn has_prefix_at_exec(s: &Vec<char>, p: usize, key: &Vec<char>) -> (r: bool)
    ensures
        r == has_prefix_at(s@, p as int, key@),
{
    let n = s.len();
    if p > n || key.len() > n - p {
        return false;
    }
    let mut k: usize = 0;
    while k < key.len()
        invariant
            n == s@.len(),
            p + key@.len() <= s@.len(),
            k <= key@.len(),
            forall|j: int| 0 <= j < k ==> s@[p + j] == key@[j],
        decreases key@.len() - k,
    {
        if s[p + k] != key[k] {
            assert(s@.subrange(p as int, p + key@.len())[k as int] != key@[k as int]);
            return false;
        }
        k = k + 1;
    }
    assert(s@.subrange(p as int, p + key@.len()) =~= key@);
    true
}

/// Whether the line at `p` is a marker with the given key.
pub fn is_marker_at(s: &Vec<char>, p: usize, key: &Vec<char>) -> (r: bool)
    requires
        is_line_start(s@, p as int),
    ensures
        r == marker_line(s@, p as int, key@),
{
    proof {
        reveal(marker_line);
    }
    if !has_prefix_at_exec(s, p, key) {
        return false;
    }
    let n = s.len();
    assert(p + key@.len() <= n);
    let e = line_end_exec(s, p);
    proof {
        lemma_line_end_bounds(s@, p as int);
    }
    let start = p + key.len();
    if e < start {
        return false;
    }
    let mut q = start;
    while e - q > 1
        invariant
            start <= q <= e,
            e == line_end(s@, p as int),
            start == p + key@.len(),
            e <= s@.len(),
            forall|k: int| start <= k < q ==> s@[k] != '\r',
        decreases e - q,
    {
        if s[q] == '\r' {
            proof {
                reveal(marker_line);
            }
            return false;
        }
        q = q + 1;
    }
    true
}

/// The value of the marker at `p`, a final `\r` left out.
pub fn marker_value_exec(s: &Vec<char>, p: usize, key: &Vec<char>) -> (r: Vec<char>)
    requires
        marker_line(s@, p as int, key@),
    ensures
        r@ == marker_value(s@, p as int, key@),
{
    proof {
        reveal(marker_line);
    }
    let n = s.len();
    let e = line_end_exec(s, p);
    proof {
        lemma_line_end_bounds(s@, p as int);
    }
    let start = p + key.len();
    let mut stop = e;
    if e > start && s[e - 1] == '\r' {
        stop = e - 1;
    }
    let mut r: Vec<char> = Vec::new();
    let mut q = start;
    while q < stop
        invariant
            start <= q <= stop,
            stop <= s@.len(),
            r@ == s@.subrange(start as int, q as int),
        decreases stop - q,
    {
        r.push(s[q]);
        q = q + 1;
        proof {
            assert(r@ == s@.subrange(start as int, q as int));
        }
    }
    r
}

/// The first marker with the given key at or after `from`.
pub fn find_marker(s: &Vec<char>, key: &Vec<char>, from: usize) -> (r: Option<usize>)
    requires
        is_line_start(s@, from as int),
    ensures
        match r {
            Some(p) => from <= p && marker_line(s@, p as int, key@) && no_marker_in(s@, key@, from as int, p as int),
            None => no_marker_in(s@, key@, from as int, s@.len() + 1int),
        },
{
    proof {
        reveal(marker_line);
    }
    let mut p = from;
    loop
        invariant
            from <= p <= s@.len(),
            is_line_start(s@, p as int),
            no_marker_in(s@, key@, from as int, p as int),
        decreases s@.len() - p,
    {
        if is_marker_at(s, p, key) {
            return Some(p);
        }
        let e = line_end_exec(s, p);
        proof {
            lemma_line_end_bounds(s@, p as int);
            assert forall|q: int| from <= q < e + 1 implies !#[trigger] marker_line(s@, q, key@) by {
                reveal(marker_line);
                if p < q <= e {
                    assert(s@[q - 1] != '\n' || q - 1 == e);
                }
            };
        }
        if e >= s.len() {
            proof {
                assert forall|q: int| from <= q < s@.len() + 1 implies !#[trigger] marker_line(s@, q, key@) by {
                    reveal(marker_line);
                    if p < q {
                        assert(q - 1 < e);
                    }
                };
            }
            return None;
        }
        p = e + 1;
    }
}

pub open spec fn no_newline(s: Seq<char>) -> bool {
    forall|i: int| 0 <= i < s.len() ==> s[i] != '\n'
}

/// Lines of `s` keep their ends behind a prefix `h` that ends a line.
pub proof fn lemma_line_end_shift(h: Seq<char>, s: Seq<char>, q: int)
    requires
        0 <= q <= s.len(),
    ensures
        line_end(h + s, h.len() + q) == h.len() + line_end(s, q),
    decreases s.len() - q,
{
    let t = h + s;
    if q < s.len() {
        assert(t[h.len() + q] == s[q]);
        if s[q] != '\n' {
            lemma_line_end_shift(h, s, q + 1);
        }
    }
}

/// Behind a prefix `h` that ends with `\n`, the lines of `s` are lines of
/// `h + s`, with the same markers and values.
pub proof fn lemma_marker_shift(h: Seq<char>, s: Seq<char>, key: Seq<char>, q: int)
    requires
        0 <= q <= s.len(),
        h.len() > 0,
        h.last() == '\n',
    ensures
        is_line_start(h + s, h.len() + q) == is_line_start(s, q),
        has_prefix_at(h + s, h.len() + q, key) == has_prefix_at(s, q, key),
        marker_line(h + s, h.len() + q, key) == marker_line(s, q, key),
        marker_line(s, q, key) ==> marker_value(h + s, h.len() + q, key) == marker_value(s, q, key),
{
    reveal(marker_line);
    let t = h + s;
    let p = h.len() + q;
    lemma_line_end_shift(h, s, q);
    lemma_line_end_bounds(s, q);
    if q > 0 {
        assert(t[p - 1] == s[q - 1]);
    }
    if has_prefix_at(s, q, key) {
        assert(t.subrange(p, p + key.len()) =~= s.subrange(q, q + key.len()));
    }
    if has_prefix_at(t, p, key) {
        assert(t.subrange(p, p + key.len()) =~= s.subrange(q, q + key.len()));
    }
    let e = line_end(s, q);
    assert forall|k: int| q + key.len() <= k < e - 1 implies t[h.len() + k] == s[k] by {};
    if marker_line(s, q, key) {
        assert forall|k: int| p + key.len() <= k < line_end(t, p) - 1 implies t[k] != '\r' by {
            assert(t[k] == s[k - h.len()]);
        };
        if e > q + key.len() {
            assert(t[h.len() + e - 1] == s[e - 1]);
        }
        if e > q + key.len() && s[e - 1] == '\r' {
            assert(t.subrange(p + key.len(), h.len() + e - 1) =~= s.subrange(q + key.len(), e - 1));
        } else {
            assert(t.subrange(p + key.len(), h.len() + e) =~= s.subrange(q + key.len(), e));
        }
    }
    if marker_line(t, p, key) {
        assert forall|k: int| q + key.len() <= k < e - 1 implies s[k] != '\r' by {
            assert(t[h.len() + k] == s[k]);
        };
    }
}

/// A line that ends inside a common prefix of two texts is the same line
/// in both.
pub proof fn lemma_same_prefix_line(s: Seq<char>, t: Seq<char>, m: int, q: int, key: Seq<char>)
    requires
        0 <= q,
        m <= s.len(),
        m <= t.len(),
        s.subrange(0, m) == t.subrange(0, m),
        line_end(s, q) < m,
        q <= s.len(),
    ensures
        line_end(t, q) == line_end(s, q),
        is_line_start(t, q) == is_line_start(s, q),
        marker_line(t, q, key) == marker_line(s, q, key),
        marker_line(s, q, key) ==> marker_value(t, q, key) == marker_value(s, q, key),
{
    reveal(marker_line);
    lemma_line_end_bounds(s, q);
    let e = line_end(s, q);
    assert forall|k: int| 0 <= k < m implies s[k] == t[k] by {
        assert(s.subrange(0, m)[k] == s[k]);
        assert(t.subrange(0, m)[k] == t[k]);
    };
    lemma_line_end_is_first(t, q, e);
    if marker_line(s, q, key) || marker_line(t, q, key) {
        if q + key.len() <= e {
            assert(s.subrange(q, q + key.len()) =~= t.subrange(q, q + key.len()));
        }
    }
    if marker_line(s, q, key) {
        if e > q + key.len() && s[e - 1] == '\r' {
            assert(s.subrange(q + key.len(), e - 1) =~= t.subrange(q + key.len(), e - 1));
        } else {
            assert(s.subrange(q + key.len(), e) =~= t.subrange(q + key.len(), e));
        }
    }
}

} // verus!
