//! Rewriting the parameter declarations of an AviUtl2 script.
use vstd::prelude::*;
use crate::lua_string::StringError;
use crate::lines::{
    is_line_start, is_marker_at, lemma_line_end_bounds, line_end, line_end_exec, marker_line, marker_value,
    marker_value_exec,
};
use crate::scan::{
    find_from, find_from_exec, lemma_find_from, lemma_skip_ws, matches_at, matches_at_exec, skip_ws,
    skip_ws_exec,
};
use crate::text::chars_of;
use crate::lines::{lemma_line_end_is_first, lemma_same_prefix_line, no_newline};
use crate::replacement::{is_line_break, no_cr};

verus! {

/// Why a script cannot be rewritten.
#[derive(Clone, Copy, Debug, PartialEq, Eq, Structural)]
pub enum ScriptError {
    /// A replacement version marker whose value is no `u32`.
    InvalidVersion,
    /// Two replacement version markers.
    DuplicateVersion,
    /// Two original hash markers.
    DuplicateHash,
    /// An original hash that is not 16 lower-case hex digits.
    InvalidHash,
    /// A version marker that a rewrite would have to replace.
    OldVersionPresent,
    /// A marked script without the hash of its original.
    MissingOriginalHash,
    /// The backup does not have the recorded hash.
    BackupHashMismatch,
    /// The backup is a rewritten script itself.
    BackupReplaced,
    /// The recorded hash differs from that of the original.
    HashChanged,
    /// The bytes are not Shift-JIS.
    InvalidShiftJis,
    /// The text cannot be written in Shift-JIS.
    NotShiftJis,
    /// No `@name` section of that name.
    SectionNotFound,
    /// A `--[[` header comment without its end.
    UnterminatedComment,
    /// No `--dialog:` line.
    DialogNotFound,
    /// A `--dialog` item that is not `label,name=value`.
    InvalidDialogItem,
    /// A `--dialog` item without a default.
    MissingDefault,
    /// A `--dialog` line without items.
    EmptyDialog,
    /// More than 16 `--dialog` items.
    TooManyItems,
    /// A quoted default without its closing quote.
    UnterminatedString,
    /// A long-bracket default without its end.
    UnterminatedLongString,
    /// A closing bracket that does not match the open one.
    MismatchedBrackets,
    /// Brackets left open at the end of a default.
    UnclosedBrackets,
    /// No dialog parameter at that index.
    IndexOutOfBounds,
    /// The parameter's declaration is not in the script.
    ParameterNotFound,
    /// Parameter groups are not given as groups of four values.
    InvalidGroup,
    /// A generated parameter name is taken already.
    GeneratedNameTaken,
    /// A label or default that does not fit on one declaration line.
    MultilineParameter,
    /// A bound or default that is not a number.
    InvalidNumber,
    /// Bounds that are not finite or not in order.
    InvalidRange,
    /// A label suffix after `*` that names no parameter kind.
    UnknownSuffix,
    /// The label is empty.
    EmptyLabel,
    /// The default is empty.
    EmptyDefault,
    /// The default lies outside the bounds.
    DefaultOutOfRange,
    /// A string parameter with a non-string default or non-zero bounds.
    StringBounds,
    /// A colour parameter with non-zero bounds.
    ColorBounds,
    /// A colour default that is no number up to 0xffffff.
    InvalidColor,
    /// A quoted default that does not decode.
    String(StringError),
}

/// The line at `p` is a section header `@name`.
pub open spec fn section_header(s: Seq<char>, p: int) -> bool {
    marker_line(s, p, "@"@) && marker_value(s, p, "@"@).len() > 0
}

/// The first header of a section with that name at or after line start `p`.
pub open spec fn section_from(s: Seq<char>, name: Seq<char>, p: int) -> Option<int>
    decreases s.len() + 1 - p,
{
    if p < 0 || p > s.len() {
        None
    } else if section_header(s, p) && marker_value(s, p, "@"@) == name {
        Some(p)
    } else {
        proof {
            lemma_line_end_bounds(s, p);
        }
        section_from(s, name, line_end(s, p) + 1)
    }
}

/// The first section header at or after line start `p`, or the end.
pub open spec fn header_from(s: Seq<char>, p: int) -> int
    decreases s.len() + 1 - p,
{
    if p < 0 || p > s.len() {
        s.len() as int
    } else if section_header(s, p) {
        p
    } else {
        proof {
            lemma_line_end_bounds(s, p);
        }
        header_from(s, line_end(s, p) + 1)
    }
}

/// The position of the last `@` in the text.
pub open spec fn last_at(s: Seq<char>) -> Option<int>
    decreases s.len(),
{
    if s.len() == 0 {
        None
    } else if s.last() == '@' {
        Some(s.len() - 1)
    } else {
        last_at(s.drop_last())
    }
}

/// The part of a script that holds the named script: for `name@file` the
/// section from the header `@name` to the next header; for a name without
/// `@`, the whole text.
pub open spec fn spec_script_section(s: Seq<char>, script_name: Seq<char>) -> Result<(int, int), ScriptError> {
    match last_at(script_name) {
        None => Ok((0, s.len() as int)),
        Some(a) => match section_from(s, script_name.subrange(0, a), 0) {
            None => Err(ScriptError::SectionNotFound),
            Some(p) => {
                let e = line_end(s, p);
                Ok((p, if e < s.len() { header_from(s, e + 1) } else { s.len() as int }))
            },
        },
    }
}

pub proof fn lemma_section_from(s: Seq<char>, name: Seq<char>, p: int)
    requires
        is_line_start(s, p),
    ensures
        section_from(s, name, p) matches Some(q) ==> p <= q <= s.len() && is_line_start(s, q),
    decreases s.len() + 1 - p,
{
    if !(section_header(s, p) && marker_value(s, p, "@"@) == name) {
        lemma_line_end_bounds(s, p);
        if line_end(s, p) < s.len() {
            lemma_section_from(s, name, line_end(s, p) + 1);
        }
    }
}

pub proof fn lemma_header_from(s: Seq<char>, p: int)
    requires
        is_line_start(s, p),
    ensures
        p <= header_from(s, p) <= s.len(),
    decreases s.len() + 1 - p,
{
    if !section_header(s, p) {
        lemma_line_end_bounds(s, p);
        if line_end(s, p) < s.len() {
            lemma_header_from(s, line_end(s, p) + 1);
        }
    }
}

fn is_section_header(s: &Vec<char>, p: usize, at: &Vec<char>) -> (r: bool)
    requires
        is_line_start(s@, p as int),
        at@ == "@"@,
    ensures
        r == section_header(s@, p as int),
{
    if !is_marker_at(s, p, at) {
        return false;
    }
    let v = marker_value_exec(s, p, at);
    v.len() > 0
}

fn find_section(s: &Vec<char>, name: &Vec<char>, from: usize) -> (r: Option<usize>)
    requires
        is_line_start(s@, from as int),
    ensures
        match r {
            Some(p) => section_from(s@, name@, from as int) == Some(p as int),
            None => section_from(s@, name@, from as int) is None,
        },
{
    let at = chars_of("@");
    let mut p = from;
    loop
        invariant
            is_line_start(s@, p as int),
            at@ == "@"@,
            section_from(s@, name@, from as int) == section_from(s@, name@, p as int),
        decreases s@.len() - p,
    {
        if is_section_header(s, p, &at) {
            let v = marker_value_exec(s, p, &at);
            if crate::text::same_chars(&v, name) {
                return Some(p);
            }
        }
        let e = line_end_exec(s, p);
        proof {
            lemma_line_end_bounds(s@, p as int);
        }
        if e >= s.len() {
            assert(section_from(s@, name@, e + 1) is None);
            return None;
        }
        p = e + 1;
    }
}

fn find_header(s: &Vec<char>, from: usize) -> (r: usize)
    requires
        is_line_start(s@, from as int),
    ensures
        r == header_from(s@, from as int),
{
    let at = chars_of("@");
    let mut p = from;
    loop
        invariant
            is_line_start(s@, p as int),
            at@ == "@"@,
            header_from(s@, from as int) == header_from(s@, p as int),
        decreases s@.len() - p,
    {
        if is_section_header(s, p, &at) {
            return p;
        }
        let e = line_end_exec(s, p);
        proof {
            lemma_line_end_bounds(s@, p as int);
        }
        if e >= s.len() {
            assert(header_from(s@, e + 1) == s@.len());
            return s.len();
        }
        p = e + 1;
    }
}

/// The range of the text that holds the named script.
pub fn script_section(s: &Vec<char>, script_name: &Vec<char>) -> (r: Result<(usize, usize), ScriptError>)
    ensures
        match (spec_script_section(s@, script_name@), r) {
            (Ok((a, b)), Ok((c, d))) => a == c && b == d,
            (Err(a), Err(b)) => a == b,
            _ => false,
        },
        r matches Ok((a, b)) ==> a <= b <= s@.len(),
{
    let mut k = script_name.len();
    assert(script_name@.take(k as int) =~= script_name@);
    while k > 0 && script_name[k - 1] != '@'
        invariant
            k <= script_name@.len(),
            last_at(script_name@) == last_at(script_name@.take(k as int)),
        decreases k,
    {
        proof {
            assert(script_name@.take(k as int).drop_last() =~= script_name@.take(k - 1));
        }
        k = k - 1;
    }
    if k == 0 {
        assert(last_at(script_name@.take(0)) is None);
        return Ok((0, s.len()));
    }
    assert(last_at(script_name@.take(k as int)) == Some(k - 1));
    let name = crate::scan::slice(script_name, 0, k - 1);
    assert(name@ =~= script_name@.subrange(0, k - 1));
    proof {
        lemma_section_from(s@, name@, 0);
    }
    match find_section(s, &name, 0) {
        None => Err(ScriptError::SectionNotFound),
        Some(p) => {
            let e = line_end_exec(s, p);
            proof {
                lemma_line_end_bounds(s@, p as int);
            }
            if e < s.len() {
                proof {
                    lemma_header_from(s@, e + 1);
                }
                Ok((p, find_header(s, e + 1)))
            } else {
                Ok((p, s.len()))
            }
        },
    }
}

/// The number of `=` from position `i` on.
pub open spec fn eq_run(s: Seq<char>, i: int) -> nat
    decreases s.len() - i,
{
    if 0 <= i < s.len() && s[i] == '=' {
        1 + eq_run(s, i + 1)
    } else {
        0
    }
}

/// The closing bracket of a Lua long bracket of level `k`: `]`, `k` times
/// `=`, `]`.
pub open spec fn long_close(k: nat) -> Seq<char> {
    seq![']'] + Seq::new(k, |i: int| '=') + seq![']']
}

/// A Lua long bracket `[`, `k` times `=`, `[` opens at `i`.
pub open spec fn long_open_at(s: Seq<char>, i: int) -> Option<nat> {
    let k = eq_run(s, i + 1);
    if 0 <= i && i + 1 + k < s.len() && s[i] == '[' && s[i + 1 + k] == '[' {
        Some(k)
    } else {
        None
    }
}

/// A header comment `--[`, `k` times `=`, `[` opens at `j`.
pub open spec fn comment_open_at(s: Seq<char>, j: int) -> Option<nat> {
    if 0 <= j && j + 2 <= s.len() && s[j] == '-' && s[j + 1] == '-' {
        long_open_at(s, j + 2)
    } else {
        None
    }
}

pub proof fn lemma_eq_run(s: Seq<char>, i: int)
    requires
        0 <= i,
    ensures
        i + eq_run(s, i) <= s.len() || eq_run(s, i) == 0,
        forall|m: int| i <= m < i + eq_run(s, i) ==> s[m] == '=',
        i + eq_run(s, i) < s.len() ==> s[i + eq_run(s, i)] != '=',
    decreases s.len() - i,
{
    if 0 <= i < s.len() && s[i] == '=' {
        lemma_eq_run(s, i + 1);
    }
}

/// Where the body of a script section begins: after white space, `--`
/// comments, `--[[ ]]` header comments and `@` lines.
pub open spec fn body_from(s: Seq<char>, i: int) -> Result<int, ScriptError>
    decreases s.len() - i,
{
    let j = skip_ws(s, i);
    if i < 0 || i > s.len() || j >= s.len() {
        Ok(s.len() as int)
    } else {
        proof {
            lemma_skip_ws(s, i);
        }
        match comment_open_at(s, j) {
            Some(k) => match find_from(s, long_close(k), j + 4 + k) {
                None => Err(ScriptError::UnterminatedComment),
                Some(m) => {
                    proof {
                        lemma_find_from(s, long_close(k), j + 4 + k);
                    }
                    body_from(s, m + k + 2)
                },
            },
            None => if (j + 1 < s.len() && s[j] == '-' && s[j + 1] == '-') || s[j] == '@' {
                proof {
                    lemma_line_end_bounds(s, j);
                }
                let e = line_end(s, j);
                if e >= s.len() {
                    Ok(s.len() as int)
                } else {
                    body_from(s, e + 1)
                }
            } else {
                Ok(j)
            },
        }
    }
}

fn eq_run_exec(s: &Vec<char>, i: usize) -> (r: usize)
    requires
        i <= s@.len(),
    ensures
        r == eq_run(s@, i as int),
        i + r <= s@.len(),
{
    let mut k = i;
    while k < s.len() && s[k] == '='
        invariant
            i <= k <= s@.len(),
            eq_run(s@, i as int) == (k - i) + eq_run(s@, k as int),
        decreases s@.len() - k,
    {
        k = k + 1;
    }
    k - i
}

fn long_open_exec(s: &Vec<char>, i: usize) -> (r: Option<usize>)
    requires
        i <= s@.len(),
    ensures
        match long_open_at(s@, i as int) {
            Some(k) => r == Some(k as usize),
            None => r is None,
        },
{
    if i >= s.len() || s.len() - i < 2 || s[i] != '[' {
        return None;
    }
    let k = eq_run_exec(s, i + 1);
    if i + 1 + k < s.len() && s[i + 1 + k] == '[' {
        Some(k)
    } else {
        None
    }
}

fn long_close_exec(k: usize) -> (r: Vec<char>)
    ensures
        r@ == long_close(k as nat),
{
    let mut r: Vec<char> = Vec::new();
    r.push(']');
    let mut i: usize = 0;
    while i < k
        invariant
            i <= k,
            r@ == seq![']'] + Seq::new(i as nat, |m: int| '='),
        decreases k - i,
    {
        r.push('=');
        i = i + 1;
        proof {
            assert(r@ =~= seq![']'] + Seq::new(i as nat, |m: int| '='));
        }
    }
    r.push(']');
    r
}

/// Where the body of a script section begins.
pub fn script_body_start(s: &Vec<char>) -> (r: Result<usize, ScriptError>)
    ensures
        match (body_from(s@, 0), r) {
            (Ok(a), Ok(b)) => a == b,
            (Err(a), Err(b)) => a == b,
            _ => false,
        },
{
    let n = s.len();
    let mut i: usize = 0;
    loop
        invariant
            n == s@.len(),
            i <= n,
            body_from(s@, 0) == body_from(s@, i as int),
        decreases n - i,
    {
        let j = skip_ws_exec(s, i);
        proof {
            lemma_skip_ws(s@, i as int);
        }
        if j >= n {
            return Ok(n);
        }
        let open = if n - j >= 2 && s[j] == '-' && s[j + 1] == '-' {
            long_open_exec(s, j + 2)
        } else {
            None
        };
        match open {
            Some(k) => {
                proof {
                    lemma_eq_run(s@, j + 3);
                }
                let close = long_close_exec(k);
                match find_from_exec(s, &close, j + 4 + k) {
                    None => return Err(ScriptError::UnterminatedComment),
                    Some(m) => {
                        proof {
                            lemma_find_from(s@, long_close(k as nat), j + 4 + k);
                        }
                        i = m + k + 2;
                    },
                }
            },
            None => {
                if (j + 1 < n && s[j] == '-' && s[j + 1] == '-') || s[j] == '@' {
                    let e = line_end_exec(s, j);
                    proof {
                        lemma_line_end_bounds(s@, j as int);
                    }
                    if e >= n {
                        return Ok(n);
                    }
                    i = e + 1;
                } else {
                    return Ok(j);
                }
            },
        }
    }
}

/// Where a quoted string whose text begins at `i` ends: at the first
/// quote `q` that no backslash escapes, or past the end of the text.
pub open spec fn quote_end(s: Seq<char>, i: int, q: char) -> int
    decreases s.len() + 1 - i,
{
    if i < 0 || i >= s.len() {
        i
    } else if s[i] == q {
        i
    } else if s[i] == '\\' {
        quote_end(s, i + 2, q)
    } else {
        quote_end(s, i + 1, q)
    }
}

pub proof fn lemma_quote_end(s: Seq<char>, i: int, q: char)
    requires
        0 <= i,
    ensures
        quote_end(s, i, q) >= i,
        quote_end(s, i, q) < s.len() ==> s[quote_end(s, i, q)] == q,
    decreases s.len() + 1 - i,
{
    if i < s.len() && s[i] != q {
        if s[i] == '\\' {
            lemma_quote_end(s, i + 2, q);
        } else {
            lemma_quote_end(s, i + 1, q);
        }
    }
}

/// Where the default of a `--dialog` item ends: at the first `;` outside
/// strings, long strings and brackets, or at the end of the text. `stack`
/// holds the closing brackets still owed.
pub open spec fn value_end_from(s: Seq<char>, i: int, stack: Seq<char>) -> Result<int, ScriptError>
    decreases s.len() - i,
{
    if i < 0 || i >= s.len() {
        if stack.len() == 0 {
            Ok(s.len() as int)
        } else {
            Err(ScriptError::UnclosedBrackets)
        }
    } else {
        let c = s[i];
        if c == '\'' || c == '"' {
            let j = quote_end(s, i + 1, c);
            if j >= s.len() {
                Err(ScriptError::UnterminatedString)
            } else {
                proof {
                    lemma_quote_end(s, i + 1, c);
                }
                value_end_from(s, j + 1, stack)
            }
        } else if c == '[' {
            match long_open_at(s, i) {
                Some(k) => match find_from(s, long_close(k), i + k + 2) {
                    None => Err(ScriptError::UnterminatedLongString),
                    Some(m) => {
                        proof {
                            lemma_find_from(s, long_close(k), i + k + 2);
                        }
                        value_end_from(s, m + k + 2, stack)
                    },
                },
                None => value_end_from(s, i + 1, stack.push(']')),
            }
        } else if c == '{' {
            value_end_from(s, i + 1, stack.push('}'))
        } else if c == '(' {
            value_end_from(s, i + 1, stack.push(')'))
        } else if c == ']' || c == '}' || c == ')' {
            if stack.len() > 0 && stack.last() == c {
                value_end_from(s, i + 1, stack.drop_last())
            } else {
                Err(ScriptError::MismatchedBrackets)
            }
        } else if c == ';' && stack.len() == 0 {
            Ok(i)
        } else {
            value_end_from(s, i + 1, stack)
        }
    }
}

pub proof fn lemma_value_end(s: Seq<char>, i: int, stack: Seq<char>)
    requires
        0 <= i <= s.len(),
    ensures
        value_end_from(s, i, stack) matches Ok(e) ==> i <= e <= s.len()
            && (e < s.len() ==> s[e] == ';'),
    decreases s.len() - i,
{
    if i < s.len() {
        let c = s[i];
        if c == '\'' || c == '"' {
            lemma_quote_end(s, i + 1, c);
            let j = quote_end(s, i + 1, c);
            if j < s.len() {
                lemma_value_end(s, j + 1, stack);
            }
        } else if c == '[' {
            match long_open_at(s, i) {
                Some(k) => {
                    lemma_find_from(s, long_close(k), i + k + 2);
                    if let Some(m) = find_from(s, long_close(k), i + k + 2) {
                        lemma_value_end(s, m + k + 2, stack);
                    }
                },
                None => lemma_value_end(s, i + 1, stack.push(']')),
            }
        } else if c == '{' {
            lemma_value_end(s, i + 1, stack.push('}'));
        } else if c == '(' {
            lemma_value_end(s, i + 1, stack.push(')'));
        } else if c == ']' || c == '}' || c == ')' {
            if stack.len() > 0 && stack.last() == c {
                lemma_value_end(s, i + 1, stack.drop_last());
            }
        } else if !(c == ';' && stack.len() == 0) {
            lemma_value_end(s, i + 1, stack);
        }
    }
}

/// Where the default of a `--dialog` item ends: at the first `;` outside
/// strings and brackets, or at the end of the text.
pub fn dialog_value_end(s: &Vec<char>) -> (r: Result<usize, ScriptError>)
    ensures
        match (value_end_from(s@, 0, Seq::empty()), r) {
            (Ok(a), Ok(b)) => a == b,
            (Err(a), Err(b)) => a == b,
            _ => false,
        },
        r matches Ok(e) ==> e <= s@.len(),
{
    proof {
        lemma_value_end(s@, 0, Seq::empty());
    }
    let n = s.len();
    let mut closing: Vec<char> = Vec::new();
    let mut i: usize = 0;
    while i < n
        invariant
            n == s@.len(),
            i <= n,
            value_end_from(s@, 0, Seq::empty()) == value_end_from(s@, i as int, closing@),
        decreases n - i,
    {
        let c = s[i];
        if c == '\'' || c == '"' {
            let mut j = i + 1;
            while j < n && s[j] != c
                invariant
                    n == s@.len(),
                    i < j,
                    i < n,
                    c == s@[i as int],
                    c == '\'' || c == '"',
                    value_end_from(s@, 0, Seq::empty()) == value_end_from(s@, i as int, closing@),
                    quote_end(s@, i + 1, c) == quote_end(s@, j as int, c),
                decreases n + 1 - j,
            {
                if s[j] == '\\' {
                    if n - j < 2 {
                        assert(quote_end(s@, j + 2, c) == j + 2);
                        return Err(ScriptError::UnterminatedString);
                    }
                    j = j + 1;
                }
                j = j + 1;
            }
            if j >= n {
                return Err(ScriptError::UnterminatedString);
            }
            i = j + 1;
        } else if c == '[' {
            match long_open_exec(s, i) {
                Some(k) => {
                    proof {
                        lemma_eq_run(s@, i + 1);
                    }
                    let close = long_close_exec(k);
                    match find_from_exec(s, &close, i + k + 2) {
                        None => return Err(ScriptError::UnterminatedLongString),
                        Some(m) => {
                            proof {
                                lemma_find_from(s@, long_close(k as nat), i + k + 2);
                            }
                            i = m + k + 2;
                        },
                    }
                },
                None => {
                    closing.push(']');
                    i = i + 1;
                },
            }
        } else if c == '{' {
            closing.push('}');
            i = i + 1;
        } else if c == '(' {
            closing.push(')');
            i = i + 1;
        } else if c == ']' || c == '}' || c == ')' {
            let ghost before = closing@;
            let top = closing.pop();
            match top {
                Some(t) => {
                    if t != c {
                        return Err(ScriptError::MismatchedBrackets);
                    }
                },
                None => return Err(ScriptError::MismatchedBrackets),
            }
            assert(closing@ =~= before.drop_last());
            i = i + 1;
        } else if c == ';' && closing.len() == 0 {
            return Ok(i);
        } else {
            i = i + 1;
        }
    }
    if closing.len() > 0 {
        return Err(ScriptError::UnclosedBrackets);
    }
    Ok(n)
}

/// A tab or a space.
pub open spec fn is_blank(c: char) -> bool {
    c == '\t' || c == ' '
}

/// The first position at or after `i` that is no tab or space.
pub open spec fn skip_blanks(s: Seq<char>, i: int) -> int
    decreases s.len() - i,
{
    if 0 <= i < s.len() && is_blank(s[i]) {
        skip_blanks(s, i + 1)
    } else {
        i
    }
}

pub open spec fn is_ident_start(c: char) -> bool {
    ('A' <= c <= 'Z') || ('a' <= c <= 'z') || c == '_'
}

pub open spec fn is_ident_char(c: char) -> bool {
    is_ident_start(c) || ('0' <= c <= '9')
}

/// The end of the run of identifier characters from `i` on.
pub open spec fn ident_end(s: Seq<char>, i: int) -> int
    decreases s.len() - i,
{
    if 0 <= i < s.len() && is_ident_char(s[i]) {
        ident_end(s, i + 1)
    } else {
        i
    }
}

/// The first `,` or `;` at or after `i`, or the end.
pub open spec fn separator_from(s: Seq<char>, i: int) -> int
    decreases s.len() - i,
{
    if 0 <= i < s.len() && s[i] != ',' && s[i] != ';' {
        separator_from(s, i + 1)
    } else {
        i
    }
}

/// `name[ \t]*=[ \t]*` at `i`: the name's end and where the value begins.
pub open spec fn assignment_at(s: Seq<char>, i: int) -> Option<(int, int)> {
    let e = ident_end(s, i);
    let k = skip_blanks(s, e);
    if 0 <= i < s.len() && is_ident_start(s[i]) && k < s.len() && s[k] == '=' {
        Some((e, skip_blanks(s, k + 1)))
    } else {
        None
    }
}

/// The head `label, [local ]name = ` of a `--dialog` item: where the value
/// begins, the label and the name.
pub open spec fn item_head(r: Seq<char>) -> Option<(int, Seq<char>, Seq<char>)> {
    let c = separator_from(r, 0);
    if c == 0 || c >= r.len() || r[c] == ';' {
        None
    } else {
        let i = skip_blanks(r, c + 1);
        let j = skip_blanks(r, i + 5);
        if matches_at(r, i, "local"@) && i + 5 < r.len() && is_blank(r[i + 5]) && assignment_at(r, j) is Some {
            let (e, v) = assignment_at(r, j)->Some_0;
            Some((v, r.subrange(0, c), r.subrange(j, e)))
        } else {
            match assignment_at(r, i) {
                Some((e, v)) => Some((v, r.subrange(0, c), r.subrange(i, e))),
                None => None,
            }
        }
    }
}

pub open spec fn ends_with(s: Seq<char>, t: Seq<char>) -> bool {
    t.len() <= s.len() && s.subrange(s.len() - t.len(), s.len() as int) == t
}

/// The kind of a `--dialog` item and its label: a `/chk`, `/col` or `/fig`
/// suffix of the trimmed label names the kind.
pub open spec fn kind_and_label(label: Seq<char>) -> (Seq<char>, Seq<char>) {
    let l = crate::scan::trim(label);
    if ends_with(l, "/chk"@) {
        ("check"@, l.subrange(0, l.len() - 4))
    } else if ends_with(l, "/col"@) {
        ("color"@, l.subrange(0, l.len() - 4))
    } else if ends_with(l, "/fig"@) {
        ("figure"@, l.subrange(0, l.len() - 4))
    } else {
        ("value"@, l)
    }
}

/// One `--dialog` item: kind, name, label and default.
pub struct SpecItem {
    pub kind: Seq<char>,
    pub name: Seq<char>,
    pub label: Seq<char>,
    pub value: Seq<char>,
}

/// The items of a trimmed `--dialog` declaration.
pub open spec fn parse_items(r: Seq<char>) -> Result<Seq<SpecItem>, ScriptError>
    decreases r.len(),
{
    if r.len() == 0 {
        Ok(Seq::empty())
    } else {
        match item_head(r) {
            None => Err(ScriptError::InvalidDialogItem),
            Some((h, label, name)) => {
                let rest = r.subrange(h, r.len() as int);
                match value_end_from(rest, 0, Seq::empty()) {
                    Err(e) => Err(e),
                    Ok(end) => {
                        let value = crate::scan::trim(rest.subrange(0, end));
                        if value.len() == 0 {
                            Err(ScriptError::MissingDefault)
                        } else {
                            let (kind, l) = kind_and_label(label);
                            let item = SpecItem { kind, name, label: l, value };
                            if end >= rest.len() {
                                Ok(seq![item])
                            } else {
                                let next = crate::scan::trim(rest.subrange(end + 1, rest.len() as int));
                                proof {
                                    lemma_item_head(r);
                                    lemma_value_end(rest, 0, Seq::empty());
                                    crate::scan::lemma_trim_len(rest.subrange(end + 1, rest.len() as int));
                                }
                                match parse_items(next) {
                                    Err(e) => Err(e),
                                    Ok(items) => Ok(seq![item] + items),
                                }
                            }
                        }
                    },
                }
            },
        }
    }
}

pub proof fn lemma_skip_blanks(s: Seq<char>, i: int)
    requires
        0 <= i,
    ensures
        i <= skip_blanks(s, i),
        i <= s.len() ==> skip_blanks(s, i) <= s.len(),
        forall|k: int| i <= k < skip_blanks(s, i) ==> is_blank(#[trigger] s[k]),
        0 <= skip_blanks(s, i) < s.len() ==> !is_blank(s[skip_blanks(s, i)]),
    decreases s.len() - i,
{
    if 0 <= i < s.len() && is_blank(s[i]) {
        lemma_skip_blanks(s, i + 1);
    }
}

pub proof fn lemma_ident_end(s: Seq<char>, i: int)
    requires
        0 <= i,
    ensures
        i <= ident_end(s, i),
        i <= s.len() ==> ident_end(s, i) <= s.len(),
        forall|k: int| i <= k < ident_end(s, i) ==> is_ident_char(#[trigger] s[k]),
        0 <= ident_end(s, i) < s.len() ==> !is_ident_char(s[ident_end(s, i)]),
    decreases s.len() - i,
{
    if 0 <= i < s.len() && is_ident_char(s[i]) {
        lemma_ident_end(s, i + 1);
    }
}

pub proof fn lemma_separator_from(s: Seq<char>, i: int)
    requires
        0 <= i <= s.len(),
    ensures
        i <= separator_from(s, i) <= s.len(),
        forall|k: int| i <= k < separator_from(s, i) ==> #[trigger] s[k] != ',' && s[k] != ';',
        separator_from(s, i) < s.len() ==> s[separator_from(s, i)] == ',' || s[separator_from(s, i)] == ';',
    decreases s.len() - i,
{
    if i < s.len() && s[i] != ',' && s[i] != ';' {
        lemma_separator_from(s, i + 1);
    }
}

pub proof fn lemma_item_head(r: Seq<char>)
    ensures
        item_head(r) matches Some((h, label, name)) ==> 2 <= h <= r.len() && label.len() > 0 && name.len() > 0,
{
    let c = separator_from(r, 0);
    lemma_separator_from(r, 0);
    if !(c == 0 || c >= r.len() || r[c] == ';') {
        let i = skip_blanks(r, c + 1);
        lemma_skip_blanks(r, c + 1);
        let j = skip_blanks(r, i + 5);
        lemma_skip_blanks(r, i + 5);
        lemma_ident_end(r, i);
        lemma_ident_end(r, j);
        lemma_skip_blanks(r, ident_end(r, i));
        lemma_skip_blanks(r, ident_end(r, j));
        if let Some((e, k)) = assignment_at(r, i) {
            lemma_skip_blanks(r, skip_blanks(r, e) + 1);
        }
        if let Some((e, k)) = assignment_at(r, j) {
            lemma_skip_blanks(r, skip_blanks(r, e) + 1);
        }
    }
}

/// The line at `p` is a `dialog_info` marker with a value.
pub open spec fn info_line(s: Seq<char>, p: int) -> bool {
    marker_line(s, p, crate::replacement::dialog_info_key())
        && marker_value(s, p, crate::replacement::dialog_info_key()).len() > 0
}

/// The first `dialog_info` marker with a value at or after line start `p`.
pub open spec fn info_from(s: Seq<char>, p: int) -> Option<int>
    decreases s.len() + 1 - p,
{
    if p < 0 || p > s.len() {
        None
    } else if info_line(s, p) {
        Some(p)
    } else {
        proof {
            lemma_line_end_bounds(s, p);
        }
        info_from(s, line_end(s, p) + 1)
    }
}

/// The line at `p` is a `--dialog:` declaration, indented by tabs and
/// spaces or not.
pub open spec fn dialog_line(s: Seq<char>, p: int) -> bool {
    is_line_start(s, p) && matches_at(s, skip_blanks(s, p), "--dialog:"@)
}

/// The first `--dialog:` line at or after line start `p`.
pub open spec fn dialog_from(s: Seq<char>, p: int) -> Option<int>
    decreases s.len() + 1 - p,
{
    if p < 0 || p > s.len() {
        None
    } else if dialog_line(s, p) {
        Some(p)
    } else {
        proof {
            lemma_line_end_bounds(s, p);
        }
        dialog_from(s, line_end(s, p) + 1)
    }
}

/// The first `\r` or `\n` at or after `i`, or the end.
pub open spec fn break_from(s: Seq<char>, i: int) -> int
    decreases s.len() - i,
{
    if 0 <= i < s.len() && s[i] != '\r' && s[i] != '\n' {
        break_from(s, i + 1)
    } else {
        i
    }
}

/// The text split at each `c`, as `str::split` gives it.
pub open spec fn split_on(s: Seq<char>, c: char) -> Seq<Seq<char>>
    decreases s.len(),
{
    if s.len() == 0 {
        seq![Seq::empty()]
    } else if s.last() == c {
        split_on(s.drop_last(), c).push(Seq::empty())
    } else {
        let parts = split_on(s.drop_last(), c);
        parts.update(parts.len() - 1, parts.last().push(s.last()))
    }
}

/// The pieces joined with `sep` between each two.
pub open spec fn join(parts: Seq<Seq<char>>, sep: Seq<char>) -> Seq<char>
    decreases parts.len(),
{
    if parts.len() == 0 {
        Seq::empty()
    } else if parts.len() == 1 {
        parts[0]
    } else {
        join(parts.drop_last(), sep) + sep + parts.last()
    }
}

/// A `--trackN:` line for N from 0 to 3 begins at `p`.
pub open spec fn track_head(s: Seq<char>, p: int) -> bool {
    is_line_start(s, p) && matches_at(s, p, "--track"@) && p + 9 < s.len() && '0' <= s[p + 7] <= '3'
        && s[p + 8] == ':' && s[p + 9] != ','
}

/// The names of the tracks declared from position `pos` on: each
/// `--trackN:name,` takes everything up to the first `,` after it, and the
/// search goes on after that comma.
pub open spec fn track_names_from(s: Seq<char>, pos: int) -> Seq<Seq<char>>
    decreases s.len() - pos,
{
    if pos < 0 || pos >= s.len() {
        Seq::empty()
    } else if track_head(s, pos) && find_from(s, seq![','], pos + 9) is Some {
        let q = find_from(s, seq![','], pos + 9)->Some_0;
        proof {
            crate::scan::lemma_find_from(s, seq![','], pos + 9);
        }
        seq![s.subrange(pos + 9, q)] + track_names_from(s, q + 1)
    } else {
        track_names_from(s, pos + 1)
    }
}

/// The label a `--dialog` item gets where AviUtl2 would take it for
/// another parameter: a label that a later item repeats, or that a track
/// takes, is prefixed.
pub open spec fn unique_label(items: Seq<SpecItem>, tracks: Seq<Seq<char>>, i: int) -> Seq<char> {
    let l = items[i].label;
    if exists|j: int| i < j < items.len() && #[trigger] items[j].label == l {
        "dialog::"@ + l
    } else if tracks.contains(l) {
        if exists|j: int| 0 <= j < items.len() && j != i && #[trigger] items[j].label == l {
            "dialog::dialog::"@ + l
        } else {
            "dialog::"@ + l
        }
    } else {
        l
    }
}

/// The declaration line of one item.
pub open spec fn item_line(items: Seq<SpecItem>, tracks: Seq<Seq<char>>, i: int) -> Seq<char> {
    "--"@ + items[i].kind + "@"@ + items[i].name + ":"@ + unique_label(items, tracks, i) + ","@ + items[i].value
}

pub open spec fn item_names(items: Seq<SpecItem>) -> Seq<Seq<char>> {
    Seq::new(items.len(), |i: int| items[i].name)
}

pub open spec fn item_lines(items: Seq<SpecItem>, tracks: Seq<Seq<char>>) -> Seq<Seq<char>> {
    Seq::new(items.len(), |i: int| item_line(items, tracks, i))
}

/// The names of a script's dialog parameters, and the script with its
/// `--dialog:` line expanded into one declaration per parameter behind a
/// `dialog_info` marker that lists the names. A script that carries the
/// marker already is left as it is.
pub open spec fn spec_expand_dialog(s: Seq<char>) -> Result<(Seq<Seq<char>>, Seq<char>), ScriptError> {
    let key = crate::replacement::dialog_info_key();
    match info_from(s, 0) {
        Some(p) => Ok((split_on(marker_value(s, p, key), ';'), s)),
        None => match dialog_from(s, 0) {
            None => Err(ScriptError::DialogNotFound),
            Some(p) => {
                let start = skip_blanks(s, p) + 9;
                let end = break_from(s, start);
                match parse_items(crate::scan::trim(s.subrange(start, end))) {
                    Err(e) => Err(e),
                    Ok(items) => if items.len() == 0 {
                        Err(ScriptError::EmptyDialog)
                    } else if items.len() > 16 {
                        Err(ScriptError::TooManyItems)
                    } else {
                        let nl = crate::replacement::newline_of(s);
                        let names = item_names(items);
                        let lines = item_lines(items, track_names_from(s, 0));
                        let replacement = key + join(names, ";"@) + nl + join(lines, nl);
                        Ok((names, s.subrange(0, p) + replacement + s.subrange(end, s.len() as int)))
                    },
                }
            },
        },
    }
}

fn skip_blanks_exec(s: &Vec<char>, i: usize) -> (r: usize)
    requires
        i <= s@.len(),
    ensures
        r == skip_blanks(s@, i as int),
        i <= r <= s@.len(),
{
    let mut k = i;
    while k < s.len() && (s[k] == '\t' || s[k] == ' ')
        invariant
            i <= k <= s@.len(),
            skip_blanks(s@, i as int) == skip_blanks(s@, k as int),
        decreases s@.len() - k,
    {
        k = k + 1;
    }
    k
}

fn is_ident_char_exec(c: char) -> (r: bool)
    ensures
        r == is_ident_char(c),
{
    ('A' <= c && c <= 'Z') || ('a' <= c && c <= 'z') || c == '_' || ('0' <= c && c <= '9')
}

fn ident_end_exec(s: &Vec<char>, i: usize) -> (r: usize)
    requires
        i <= s@.len(),
    ensures
        r == ident_end(s@, i as int),
        i <= r <= s@.len(),
{
    let mut k = i;
    while k < s.len() && is_ident_char_exec(s[k])
        invariant
            i <= k <= s@.len(),
            ident_end(s@, i as int) == ident_end(s@, k as int),
        decreases s@.len() - k,
    {
        k = k + 1;
    }
    k
}

fn break_from_exec(s: &Vec<char>, i: usize) -> (r: usize)
    requires
        i <= s@.len(),
    ensures
        r == break_from(s@, i as int),
        i <= r <= s@.len(),
{
    let mut k = i;
    while k < s.len() && s[k] != '\r' && s[k] != '\n'
        invariant
            i <= k <= s@.len(),
            break_from(s@, i as int) == break_from(s@, k as int),
        decreases s@.len() - k,
    {
        k = k + 1;
    }
    k
}

fn separator_exec(s: &Vec<char>) -> (r: usize)
    ensures
        r == separator_from(s@, 0),
        r <= s@.len(),
{
    let mut k: usize = 0;
    while k < s.len() && s[k] != ',' && s[k] != ';'
        invariant
            k <= s@.len(),
            separator_from(s@, 0) == separator_from(s@, k as int),
        decreases s@.len() - k,
    {
        k = k + 1;
    }
    k
}

fn assignment_exec(s: &Vec<char>, i: usize) -> (r: Option<(usize, usize)>)
    requires
        i <= s@.len(),
    ensures
        match r {
            Some((e, v)) => assignment_at(s@, i as int) == Some((e as int, v as int)),
            None => assignment_at(s@, i as int) is None,
        },
{
    if i >= s.len() {
        return None;
    }
    let c = s[i];
    if !(('A' <= c && c <= 'Z') || ('a' <= c && c <= 'z') || c == '_') {
        return None;
    }
    let e = ident_end_exec(s, i);
    let k = skip_blanks_exec(s, e);
    if k < s.len() && s[k] == '=' {
        Some((e, skip_blanks_exec(s, k + 1)))
    } else {
        None
    }
}

/// The head of a `--dialog` item: where its value begins, its label and its
/// name.
fn item_head_exec(r: &Vec<char>) -> (out: Option<(usize, Vec<char>, Vec<char>)>)
    ensures
        match item_head(r@) {
            Some((h, label, name)) => out matches Some((a, b, c)) && a == h && b@ == label && c@ == name,
            None => out is None,
        },
{
    let c = separator_exec(r);
    if c == 0 || c >= r.len() || r[c] == ';' {
        return None;
    }
    let i = skip_blanks_exec(r, c + 1);
    let local = chars_of("local");
    if matches_at_exec(r, i, &local) && r.len() - i > 5 && (r[i + 5] == '\t' || r[i + 5] == ' ') {
        let j = skip_blanks_exec(r, i + 5);
        if let Some((e, v)) = assignment_exec(r, j) {
            proof {
                lemma_ident_end(r@, j as int);
            }
            return Some((v, crate::scan::slice(r, 0, c), crate::scan::slice(r, j, e)));
        }
    }
    match assignment_exec(r, i) {
        Some((e, v)) => {
            proof {
                lemma_ident_end(r@, i as int);
            }
            Some((v, crate::scan::slice(r, 0, c), crate::scan::slice(r, i, e)))
        },
        None => None,
    }
}

fn ends_with_exec(s: &Vec<char>, t: &Vec<char>) -> (r: bool)
    ensures
        r == ends_with(s@, t@),
{
    if t.len() > s.len() {
        return false;
    }
    let r = matches_at_exec(s, s.len() - t.len(), t);
    assert(r == ends_with(s@, t@));
    r
}

fn kind_and_label_exec(label: &Vec<char>) -> (r: (Vec<char>, Vec<char>))
    ensures
        (r.0@, r.1@) == kind_and_label(label@),
{
    let l = crate::scan::trim_exec(label);
    let chk = chars_of("/chk");
    let col = chars_of("/col");
    let fig = chars_of("/fig");
    proof {
        reveal_strlit("/chk");
        reveal_strlit("/col");
        reveal_strlit("/fig");
    }
    if ends_with_exec(&l, &chk) {
        (chars_of("check"), crate::scan::slice(&l, 0, l.len() - 4))
    } else if ends_with_exec(&l, &col) {
        (chars_of("color"), crate::scan::slice(&l, 0, l.len() - 4))
    } else if ends_with_exec(&l, &fig) {
        (chars_of("figure"), crate::scan::slice(&l, 0, l.len() - 4))
    } else {
        (chars_of("value"), l)
    }
}

/// One `--dialog` item: kind, name, label and default.
pub struct DialogItem {
    pub kind: Vec<char>,
    pub name: Vec<char>,
    pub label: Vec<char>,
    pub value: Vec<char>,
}

impl DialogItem {
    pub open spec fn spec_item(&self) -> SpecItem {
        SpecItem { kind: self.kind@, name: self.name@, label: self.label@, value: self.value@ }
    }
}

pub open spec fn spec_items(items: Seq<DialogItem>) -> Seq<SpecItem> {
    Seq::new(items.len(), |i: int| items[i].spec_item())
}

/// The items of a trimmed `--dialog` declaration.
fn parse_items_exec(r: &Vec<char>) -> (out: Result<Vec<DialogItem>, ScriptError>)
    ensures
        match (parse_items(r@), out) {
            (Ok(a), Ok(b)) => spec_items(b@) == a,
            (Err(a), Err(b)) => a == b,
            _ => false,
        },
{
    let ghost whole = r@;
    let mut items: Vec<DialogItem> = Vec::new();
    let mut rest_text = crate::scan::slice(r, 0, r.len());
    assert(rest_text@ =~= whole);
    assert(spec_items(items@) =~= Seq::<SpecItem>::empty());
    loop
        invariant
            whole == r@,
            match parse_items(rest_text@) {
                Ok(tail) => parse_items(whole) == Ok::<Seq<SpecItem>, ScriptError>(spec_items(items@) + tail),
                Err(e) => parse_items(whole) == Err::<Seq<SpecItem>, ScriptError>(e),
            },
        decreases rest_text@.len(),
    {
        let ghost cur = rest_text@;
        if rest_text.len() == 0 {
            assert(spec_items(items@) + Seq::<SpecItem>::empty() =~= spec_items(items@));
            return Ok(items);
        }
        let (h, label, name) = match item_head_exec(&rest_text) {
            None => return Err(ScriptError::InvalidDialogItem),
            Some(t) => t,
        };
        proof {
            lemma_item_head(cur);
        }
        let rest = crate::scan::slice(&rest_text, h, rest_text.len());
        let end = match dialog_value_end(&rest) {
            Err(e) => return Err(e),
            Ok(e) => e,
        };
        let raw = crate::scan::slice(&rest, 0, end);
        let value = crate::scan::trim_exec(&raw);
        if value.len() == 0 {
            return Err(ScriptError::MissingDefault);
        }
        let (kind, l) = kind_and_label_exec(&label);
        let item = DialogItem { kind, name, label: l, value };
        let ghost si = item.spec_item();
        let ghost before = items@;
        items.push(item);
        assert(spec_items(items@) =~= spec_items(before) + seq![si]);
        if end >= rest.len() {
            assert(spec_items(items@) =~= spec_items(before) + seq![si]);
            return Ok(items);
        }
        let after = crate::scan::slice(&rest, end + 1, rest.len());
        let next = crate::scan::trim_exec(&after);
        proof {
            crate::scan::lemma_trim_len(after@);
            assert(spec_items(items@) + parse_items(next@)->Ok_0 =~= spec_items(before) + (seq![si] + parse_items(next@)->Ok_0));
        }
        rest_text = next;
    }
}

fn find_info(s: &Vec<char>) -> (r: Option<usize>)
    ensures
        match r {
            Some(p) => info_from(s@, 0) == Some(p as int) && info_line(s@, p as int),
            None => info_from(s@, 0) is None,
        },
{
    let key = chars_of("--rikky_modoki:dialog_info=");
    let mut p: usize = 0;
    loop
        invariant
            is_line_start(s@, p as int),
            key@ == crate::replacement::dialog_info_key(),
            info_from(s@, 0) == info_from(s@, p as int),
        decreases s@.len() - p,
    {
        if is_marker_at(s, p, &key) {
            let v = marker_value_exec(s, p, &key);
            if v.len() > 0 {
                return Some(p);
            }
        }
        let e = line_end_exec(s, p);
        proof {
            lemma_line_end_bounds(s@, p as int);
        }
        if e >= s.len() {
            assert(info_from(s@, e + 1) is None);
            return None;
        }
        p = e + 1;
    }
}

fn find_dialog(s: &Vec<char>) -> (r: Option<usize>)
    ensures
        match r {
            Some(p) => dialog_from(s@, 0) == Some(p as int) && dialog_line(s@, p as int),
            None => dialog_from(s@, 0) is None,
        },
{
    let key = chars_of("--dialog:");
    let mut p: usize = 0;
    loop
        invariant
            is_line_start(s@, p as int),
            key@ == "--dialog:"@,
            dialog_from(s@, 0) == dialog_from(s@, p as int),
        decreases s@.len() - p,
    {
        let q = skip_blanks_exec(s, p);
        if matches_at_exec(s, q, &key) {
            return Some(p);
        }
        let e = line_end_exec(s, p);
        proof {
            lemma_line_end_bounds(s@, p as int);
        }
        if e >= s.len() {
            assert(dialog_from(s@, e + 1) is None);
            return None;
        }
        p = e + 1;
    }
}

/// `str::split` at each `c`.
fn split_exec(s: &Vec<char>, c: char) -> (r: Vec<Vec<char>>)
    ensures
        r@.len() == split_on(s@, c).len(),
        forall|i: int| 0 <= i < r@.len() ==> #[trigger] r@[i]@ == split_on(s@, c)[i],
{
    let mut parts: Vec<Vec<char>> = Vec::new();
    let mut current: Vec<char> = Vec::new();
    let mut k: usize = 0;
    while k < s.len()
        invariant
            k <= s@.len(),
            split_on(s@.take(k as int), c).len() == parts@.len() + 1,
            forall|i: int| 0 <= i < parts@.len() ==> #[trigger] parts@[i]@ == split_on(s@.take(k as int), c)[i],
            current@ == split_on(s@.take(k as int), c).last(),
        decreases s@.len() - k,
    {
        proof {
            assert(s@.take(k + 1).drop_last() =~= s@.take(k as int));
            assert(s@.take(k + 1).last() == s@[k as int]);
        }
        if s[k] == c {
            let mut done: Vec<char> = Vec::new();
            std::mem::swap(&mut done, &mut current);
            parts.push(done);
        } else {
            current.push(s[k]);
        }
        k = k + 1;
    }
    parts.push(current);
    assert(s@.take(s@.len() as int) =~= s@);
    parts
}

pub open spec fn char_views(v: Seq<Vec<char>>) -> Seq<Seq<char>> {
    Seq::new(v.len(), |i: int| v[i]@)
}

fn track_head_exec(s: &Vec<char>, pos: usize, key: &Vec<char>) -> (r: bool)
    requires
        pos < s@.len(),
        key@ == "--track"@,
    ensures
        r == track_head(s@, pos as int),
{
    proof {
        reveal_strlit("--track");
    }
    let n = s.len();
    if !(pos == 0 || s[pos - 1] == '\n') {
        return false;
    }
    if !matches_at_exec(s, pos, key) || n - pos <= 9 {
        return false;
    }
    '0' <= s[pos + 7] && s[pos + 7] <= '3' && s[pos + 8] == ':' && s[pos + 9] != ','
}

/// The names of the tracks that a script declares with `--trackN:`.
fn track_names_exec(s: &Vec<char>) -> (r: Vec<Vec<char>>)
    ensures
        char_views(r@) == track_names_from(s@, 0),
{
    let key = chars_of("--track");
    let mut comma: Vec<char> = Vec::new();
    comma.push(',');
    let mut names: Vec<Vec<char>> = Vec::new();
    let mut pos: usize = 0;
    while pos < s.len()
        invariant
            key@ == "--track"@,
            comma@ == seq![','],
            track_names_from(s@, 0) == char_views(names@) + track_names_from(s@, pos as int),
        decreases s@.len() - pos,
    {
        if track_head_exec(s, pos, &key) {
            match find_from_exec(s, &comma, pos + 9) {
                Some(q) => {
                    proof {
                        crate::scan::lemma_find_from(s@, seq![','], pos + 9);
                    }
                    let ghost before = names@;
                    let name = crate::scan::slice(s, pos + 9, q);
                    names.push(name);
                    assert(char_views(names@) =~= char_views(before) + seq![s@.subrange(pos + 9, q as int)]);
                    pos = q + 1;
                    continue;
                },
                None => {},
            }
        }
        pos = pos + 1;
    }
    assert(char_views(names@) + Seq::<Seq<char>>::empty() =~= char_views(names@));
    names
}

/// Whether an item other than `skip`, between `lo` and `hi`, has the label.
fn label_among(items: &Vec<DialogItem>, l: &Vec<char>, lo: usize, hi: usize, skip: usize) -> (r: bool)
    requires
        lo <= hi <= items@.len(),
    ensures
        r == (exists|j: int| lo <= j < hi && j != skip && #[trigger] spec_items(items@)[j].label == l@),
{
    let mut j = lo;
    while j < hi
        invariant
            lo <= j <= hi,
            hi <= items@.len(),
            forall|m: int| lo <= m < j && m != skip ==> #[trigger] spec_items(items@)[m].label != l@,
        decreases hi - j,
    {
        if j != skip && crate::text::same_chars(&items[j].label, l) {
            assert(spec_items(items@)[j as int].label == l@);
            return true;
        }
        j = j + 1;
    }
    false
}

fn in_list(list: &Vec<Vec<char>>, l: &Vec<char>) -> (r: bool)
    ensures
        r == char_views(list@).contains(l@),
{
    let mut j: usize = 0;
    while j < list.len()
        invariant
            j <= list@.len(),
            forall|m: int| 0 <= m < j ==> #[trigger] char_views(list@)[m] != l@,
        decreases list@.len() - j,
    {
        if crate::text::same_chars(&list[j], l) {
            assert(char_views(list@)[j as int] == l@);
            return true;
        }
        j = j + 1;
    }
    false
}

fn unique_label_exec(items: &Vec<DialogItem>, tracks: &Vec<Vec<char>>, i: usize) -> (r: Vec<char>)
    requires
        i < items@.len(),
    ensures
        r@ == unique_label(spec_items(items@), char_views(tracks@), i as int),
{
    let l = &items[i].label;
    let n = items.len();
    if label_among(items, l, i + 1, n, n) {
        let mut r = chars_of("dialog::");
        crate::text::push_chars(&mut r, l);
        return r;
    }
    if in_list(tracks, l) {
        if label_among(items, l, 0, n, i) {
            let mut r = chars_of("dialog::dialog::");
            crate::text::push_chars(&mut r, l);
            return r;
        }
        let mut r = chars_of("dialog::");
        crate::text::push_chars(&mut r, l);
        return r;
    }
    crate::scan::slice(l, 0, l.len())
}

/// The pieces joined with `sep` between each two.
pub fn join_exec(parts: &Vec<Vec<char>>, sep: &Vec<char>) -> (r: Vec<char>)
    ensures
        r@ == join(char_views(parts@), sep@),
{
    if parts.len() == 0 {
        return Vec::new();
    }
    let mut acc = crate::scan::slice(&parts[0], 0, parts[0].len());
    assert(char_views(parts@).take(1) =~= seq![parts@[0]@]);
    let mut i: usize = 1;
    while i < parts.len()
        invariant
            1 <= i <= parts@.len(),
            acc@ == join(char_views(parts@).take(i as int), sep@),
        decreases parts@.len() - i,
    {
        crate::text::push_chars(&mut acc, sep);
        crate::text::push_chars(&mut acc, &parts[i]);
        proof {
            assert(char_views(parts@).take(i + 1).drop_last() =~= char_views(parts@).take(i as int));
        }
        i = i + 1;
    }
    assert(char_views(parts@).take(parts@.len() as int) =~= char_views(parts@));
    acc
}

/// Expands the `--dialog:` line of a script into one declaration per
/// parameter behind a `dialog_info` marker, and gives the parameter names;
/// a script that carries the marker already only gives its names.
pub fn expand_dialog(script: &mut Vec<char>) -> (r: Result<Vec<Vec<char>>, ScriptError>)
    ensures
        match (spec_expand_dialog(old(script)@), r) {
            (Ok((names, t)), Ok(v)) => char_views(v@) == names && final(script)@ == t,
            (Err(a), Err(b)) => a == b && final(script)@ == old(script)@,
            _ => false,
        },
{
    let key = chars_of("--rikky_modoki:dialog_info=");
    if let Some(p) = find_info(script) {
        let v = marker_value_exec(script, p, &key);
        let names = split_exec(&v, ';');
        assert(char_views(names@) =~= split_on(v@, ';'));
        return Ok(names);
    }
    let p = match find_dialog(script) {
        None => return Err(ScriptError::DialogNotFound),
        Some(p) => p,
    };
    let q = skip_blanks_exec(script, p);
    proof {
        reveal_strlit("--dialog:");
    }
    let n = script.len();
    assert(q + 9 <= n);
    let start = q + 9;
    let end = break_from_exec(script, start);
    let capture = crate::scan::slice(script, start, end);
    let trimmed = crate::scan::trim_exec(&capture);
    let items = match parse_items_exec(&trimmed) {
        Err(e) => return Err(e),
        Ok(items) => items,
    };
    if items.len() == 0 {
        return Err(ScriptError::EmptyDialog);
    }
    if items.len() > 16 {
        return Err(ScriptError::TooManyItems);
    }
    let nl = crate::replacement::newline_exec(script);
    let tracks = track_names_exec(script);
    let mut names: Vec<Vec<char>> = Vec::new();
    let mut lines: Vec<Vec<char>> = Vec::new();
    let ghost sitems = spec_items(items@);
    let mut i: usize = 0;
    while i < items.len()
        invariant
            i <= items@.len(),
            sitems == spec_items(items@),
            names@.len() == i,
            lines@.len() == i,
            forall|j: int| 0 <= j < i ==> #[trigger] names@[j]@ == sitems[j].name,
            forall|j: int| 0 <= j < i ==> #[trigger] lines@[j]@ == item_line(sitems, char_views(tracks@), j),
        decreases items@.len() - i,
    {
        names.push(crate::scan::slice(&items[i].name, 0, items[i].name.len()));
        let mut line = chars_of("--");
        crate::text::push_chars(&mut line, &items[i].kind);
        crate::text::push_str(&mut line, "@");
        crate::text::push_chars(&mut line, &items[i].name);
        crate::text::push_str(&mut line, ":");
        let label = unique_label_exec(&items, &tracks, i);
        crate::text::push_chars(&mut line, &label);
        crate::text::push_str(&mut line, ",");
        crate::text::push_chars(&mut line, &items[i].value);
        lines.push(line);
        i = i + 1;
    }
    assert(char_views(names@) =~= item_names(sitems));
    assert(char_views(lines@) =~= item_lines(sitems, char_views(tracks@)));
    let semicolon = chars_of(";");
    let mut out = crate::scan::slice(script, 0, p);
    crate::text::push_chars(&mut out, &key);
    let joined = join_exec(&names, &semicolon);
    crate::text::push_chars(&mut out, &joined);
    crate::text::push_chars(&mut out, &nl);
    let body = join_exec(&lines, &nl);
    crate::text::push_chars(&mut out, &body);
    let tail = crate::scan::slice(script, end, script.len());
    crate::text::push_chars(&mut out, &tail);
    *script = out;
    Ok(names)
}

proof fn lemma_info_from_none(s: Seq<char>, p0: int, q: int)
    requires
        is_line_start(s, p0),
        info_from(s, p0) is None,
        p0 <= q,
        is_line_start(s, q),
    ensures
        !info_line(s, q),
    decreases s.len() + 1 - p0,
{
    if q > p0 {
        lemma_line_end_bounds(s, p0);
        assert(s[q - 1] == '\n');
        assert(line_end(s, p0) <= q - 1);
        lemma_info_from_none(s, line_end(s, p0) + 1, q);
    }
}

proof fn lemma_info_from_first(t: Seq<char>, p0: int, p: int)
    requires
        is_line_start(t, p0),
        p0 <= p,
        is_line_start(t, p),
        info_line(t, p),
        forall|q: int| p0 <= q < p && is_line_start(t, q) ==> !#[trigger] info_line(t, q),
    ensures
        info_from(t, p0) == Some(p),
    decreases p - p0,
{
    if p0 < p {
        lemma_line_end_bounds(t, p0);
        assert(t[p - 1] == '\n');
        assert(line_end(t, p0) <= p - 1);
        lemma_info_from_first(t, line_end(t, p0) + 1, p);
    }
}

pub open spec fn is_identifier(n: Seq<char>) -> bool {
    n.len() > 0 && forall|k: int| 0 <= k < n.len() ==> #[trigger] is_ident_char(n[k])
}

proof fn lemma_item_head_name(r: Seq<char>)
    ensures
        item_head(r) matches Some((h, label, name)) ==> is_identifier(name),
{
    let c = separator_from(r, 0);
    lemma_separator_from(r, 0);
    if !(c == 0 || c >= r.len() || r[c] == ';') {
        let i = skip_blanks(r, c + 1);
        lemma_skip_blanks(r, c + 1);
        let j = skip_blanks(r, i + 5);
        lemma_skip_blanks(r, i + 5);
        lemma_ident_end(r, i);
        lemma_ident_end(r, j);
        if let Some((e, v)) = assignment_at(r, j) {
            assert(is_ident_char(r[j]));
            assert forall|k: int| 0 <= k < e - j implies #[trigger] is_ident_char(r.subrange(j, e)[k]) by {
                assert(r.subrange(j, e)[k] == r[j + k]);
            };
        }
        if let Some((e, v)) = assignment_at(r, i) {
            assert(is_ident_char(r[i]));
            assert forall|k: int| 0 <= k < e - i implies #[trigger] is_ident_char(r.subrange(i, e)[k]) by {
                assert(r.subrange(i, e)[k] == r[i + k]);
            };
        }
    }
}

/// Every name that a `--dialog` declaration gives is an identifier.
proof fn lemma_parse_items_names(r: Seq<char>)
    ensures
        parse_items(r) matches Ok(items) ==> forall|i: int| 0 <= i < items.len() ==> is_identifier(#[trigger] items[i].name),
    decreases r.len(),
{
    if r.len() > 0 {
        lemma_item_head_name(r);
        lemma_item_head(r);
        if let Some((h, label, name)) = item_head(r) {
            let rest = r.subrange(h, r.len() as int);
            lemma_value_end(rest, 0, Seq::empty());
            if let Ok(end) = value_end_from(rest, 0, Seq::empty()) {
                if end < rest.len() {
                    let next = crate::scan::trim(rest.subrange(end + 1, rest.len() as int));
                    crate::scan::lemma_trim_len(rest.subrange(end + 1, rest.len() as int));
                    lemma_parse_items_names(next);
                    if let Ok(items) = parse_items(r) {
                        let tail = parse_items(next)->Ok_0;
                        assert forall|i: int| 0 <= i < items.len() implies is_identifier(#[trigger] items[i].name) by {
                            if i > 0 {
                                assert(items[i] == tail[i - 1]);
                            }
                        };
                    }
                }
            }
        }
    }
}

proof fn lemma_split_plain(b: Seq<char>, c: char)
    requires
        !b.contains(c),
    ensures
        split_on(b, c) == seq![b],
    decreases b.len(),
{
    if b.len() == 0 {
        assert(b =~= Seq::<char>::empty());
    } else {
        assert(!b.drop_last().contains(c)) by {
            if b.drop_last().contains(c) {
                let k = choose|k: int| 0 <= k < b.drop_last().len() && b.drop_last()[k] == c;
                assert(b[k] == c);
            }
        };
        lemma_split_plain(b.drop_last(), c);
        assert(b[b.len() - 1] != c);
        assert(b.drop_last().push(b.last()) =~= b);
        assert(seq![b.drop_last()].update(0, b) =~= seq![b]);
    }
}

proof fn lemma_split_append(a: Seq<char>, b: Seq<char>, c: char)
    requires
        !b.contains(c),
    ensures
        split_on(a + seq![c] + b, c) == split_on(a, c).push(b),
    decreases b.len(),
{
    let x = a + seq![c] + b;
    if b.len() == 0 {
        assert(x.drop_last() =~= a);
        assert(b =~= Seq::<char>::empty());
    } else {
        assert(!b.drop_last().contains(c)) by {
            if b.drop_last().contains(c) {
                let k = choose|k: int| 0 <= k < b.drop_last().len() && b.drop_last()[k] == c;
                assert(b[k] == c);
            }
        };
        lemma_split_append(a, b.drop_last(), c);
        assert(x.drop_last() =~= a + seq![c] + b.drop_last());
        assert(x.last() == b.last());
        assert(b[b.len() - 1] != c);
        assert(b.drop_last().push(b.last()) =~= b);
        let parts = split_on(a, c).push(b.drop_last());
        assert(parts.update(parts.len() - 1, b) =~= split_on(a, c).push(b));
    }
}

/// Names without `;` joined with `;` split back into the same names.
proof fn lemma_split_join(names: Seq<Seq<char>>)
    requires
        names.len() > 0,
        forall|i: int| 0 <= i < names.len() ==> !(#[trigger] names[i]).contains(';'),
    ensures
        split_on(join(names, ";"@), ';') == names,
    decreases names.len(),
{
    reveal_strlit(";");
    if names.len() == 1 {
        lemma_split_plain(names[0], ';');
        assert(seq![names[0]] =~= names);
    } else {
        let d = names.drop_last();
        lemma_split_join(d);
        assert(join(names, ";"@) == join(d, ";"@) + ";"@ + names.last());
        assert(";"@ =~= seq![';']);
        lemma_split_append(join(d, ";"@), names.last(), ';');
        assert(d.push(names.last()) =~= names);
    }
}

/// Joined identifiers hold neither line breaks nor `;` but as separators.
proof fn lemma_join_identifiers(names: Seq<Seq<char>>)
    requires
        forall|i: int| 0 <= i < names.len() ==> is_identifier(#[trigger] names[i]),
    ensures
        no_newline(join(names, ";"@)),
        no_cr(join(names, ";"@)),
        names.len() > 0 ==> join(names, ";"@).len() > 0,
    decreases names.len(),
{
    reveal_strlit(";");
    if names.len() == 1 {
        assert(is_identifier(names[0]));
        assert forall|k: int| 0 <= k < names[0].len() implies names[0][k] != '\n' && names[0][k] != '\r' by {
            assert(is_ident_char(names[0][k]));
        };
    } else if names.len() > 1 {
        let d = names.drop_last();
        assert forall|i: int| 0 <= i < d.len() implies is_identifier(#[trigger] d[i]) by {
            assert(d[i] == names[i]);
        };
        lemma_join_identifiers(d);
        let l = names.last();
        assert(is_identifier(names[names.len() - 1]));
        let j = join(names, ";"@);
        assert(j == join(d, ";"@) + ";"@ + l);
        assert forall|k: int| 0 <= k < j.len() implies j[k] != '\n' && j[k] != '\r' by {
            let a = join(d, ";"@).len();
            if k >= a + 1 {
                assert(j[k] == l[k - a - 1]);
                assert(is_ident_char(l[k - a - 1]));
            }
        };
    }
}

/// A marker line `key` + `value` + line break, standing at a line start.
proof fn lemma_marker_in_middle(a: Seq<char>, key: Seq<char>, value: Seq<char>, nl: Seq<char>, rest: Seq<char>)
    requires
        a.len() == 0 || a.last() == '\n',
        no_newline(key),
        no_cr(key),
        no_newline(value),
        no_cr(value),
        is_line_break(nl),
    ensures
        marker_line(a + key + value + nl + rest, a.len() as int, key),
        marker_value(a + key + value + nl + rest, a.len() as int, key) == value,
{
    reveal(marker_line);
    reveal_strlit("\n");
    reveal_strlit("\r\n");
    let t = a + key + value + nl + rest;
    let p = a.len() as int;
    let v0 = p + key.len();
    let e = v0 + value.len() + nl.len() - 1;
    assert forall|k: int| p <= k < e implies t[k] != '\n' by {
        if k < v0 {
            assert(t[k] == key[k - p]);
        } else if k < v0 + value.len() {
            assert(t[k] == value[k - v0]);
        } else {
            assert(t[k] == '\r');
        }
    };
    assert(t[e] == '\n');
    lemma_line_end_is_first(t, p, e);
    assert(t.subrange(p, v0) =~= key);
    assert forall|k: int| v0 <= k < e - 1 implies t[k] != '\r' by {
        assert(t[k] == value[k - v0]);
    };
    if nl == "\r\n"@ {
        assert(t[e - 1] == '\r');
        assert(t.subrange(v0, e - 1) =~= value);
    } else {
        if value.len() > 0 {
            assert(t[e - 1] == value[value.len() - 1]);
        }
        assert(t.subrange(v0, e) =~= value);
    }
    if p > 0 {
        assert(t[p - 1] == a.last());
    }
}

/// Expanding the dialog of a script twice is expanding it once: the
/// expanded script lists the same names in its `dialog_info` marker, and
/// expanding it again leaves it as it is.
pub proof fn lemma_expand_dialog_idempotent(s: Seq<char>)
    requires
        spec_expand_dialog(s) is Ok,
    ensures
        spec_expand_dialog(spec_expand_dialog(s)->Ok_0.1) == spec_expand_dialog(s),
{
    let key = crate::replacement::dialog_info_key();
    if info_from(s, 0) is None {
        let p = dialog_from(s, 0)->Some_0;
        lemma_dialog_from(s, 0);
        let start = skip_blanks(s, p) + 9;
        let end = break_from(s, start);
        let r = crate::scan::trim(s.subrange(start, end));
        let items = parse_items(r)->Ok_0;
        let names = item_names(items);
        let nl = crate::replacement::newline_of(s);
        let lines = item_lines(items, track_names_from(s, 0));
        let j = join(names, ";"@);
        let a = s.subrange(0, p);
        let tail = s.subrange(end, s.len() as int);
        let rest = join(lines, nl) + tail;
        let t = spec_expand_dialog(s)->Ok_0.1;
        assert(t =~= a + key + j + nl + rest);
        crate::replacement::lemma_keys_plain();
        crate::replacement::lemma_line_break_of(s);
        lemma_parse_items_names(r);
        assert forall|i: int| 0 <= i < names.len() implies is_identifier(#[trigger] names[i]) by {
            assert(names[i] == items[i].name);
        };
        lemma_join_identifiers(names);
        if p > 0 {
            assert(a.last() == s[p - 1]);
        }
        lemma_marker_in_middle(a, key, j, nl, rest);
        assert(t.subrange(0, p) =~= s.subrange(0, p));
        assert(is_line_start(t, p));
        assert(info_line(t, p));
        assert forall|q: int| 0 <= q < p && is_line_start(t, q) implies !#[trigger] info_line(t, q) by {
            lemma_line_end_bounds(s, q);
            assert(s[p - 1] == '\n');
            assert(line_end(s, q) <= p - 1);
            lemma_same_prefix_line(s, t, p, q, key);
            lemma_info_from_none(s, 0, q);
        };
        lemma_info_from_first(t, 0, p);
        assert forall|i: int| 0 <= i < names.len() implies !(#[trigger] names[i]).contains(';') by {
            if names[i].contains(';') {
                let k = choose|k: int| 0 <= k < names[i].len() && names[i][k] == ';';
                assert(is_ident_char(names[i][k]));
            }
        };
        lemma_split_join(names);
    }
}

proof fn lemma_dialog_from(s: Seq<char>, p: int)
    requires
        is_line_start(s, p),
    ensures
        dialog_from(s, p) matches Some(q) ==> p <= q <= s.len() && dialog_line(s, q),
    decreases s.len() + 1 - p,
{
    if !dialog_line(s, p) {
        lemma_line_end_bounds(s, p);
        if line_end(s, p) < s.len() {
            lemma_dialog_from(s, line_end(s, p) + 1);
        }
    }
}

/// The first `\r` or `\n` at or after `i`, or the end.
pub fn break_from_exec_pub(s: &Vec<char>, i: usize) -> (r: usize)
    requires
        i <= s@.len(),
    ensures
        r == break_from(s@, i as int),
        i <= r <= s@.len(),
{
    break_from_exec(s, i)
}

pub proof fn lemma_body_from(s: Seq<char>, i: int)
    requires
        0 <= i <= s.len(),
    ensures
        body_from(s, i) matches Ok(b) ==> i <= b <= s.len(),
    decreases s.len() - i,
{
    let j = skip_ws(s, i);
    lemma_skip_ws(s, i);
    if j < s.len() {
        match comment_open_at(s, j) {
            Some(k) => {
                lemma_find_from(s, long_close(k), j + 4 + k);
                if let Some(m) = find_from(s, long_close(k), j + 4 + k) {
                    lemma_body_from(s, m + k + 2);
                }
            },
            None => {
                lemma_line_end_bounds(s, j);
                if (j + 1 < s.len() && s[j] == '-' && s[j + 1] == '-') || s[j] == '@' {
                    if line_end(s, j) < s.len() {
                        lemma_body_from(s, line_end(s, j) + 1);
                    }
                }
            },
        }
    }
}

} // verus!
