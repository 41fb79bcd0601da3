use vstd::prelude::*;
use crate::script::last_at;
use crate::text::{chars_of, push_chars, string_from_chars};

verus! {

/// The file that holds a script: `name@file` lives in `@file.ext`, any
/// other name in `name.ext`.
pub open spec fn spec_script_file_name(script_name: Seq<char>, extension: Seq<char>) -> Seq<char> {
    match last_at(script_name) {
        Some(i) => seq!['@'] + script_name.subrange(i + 1, script_name.len() as int) + seq!['.'] + extension,
        None => script_name + seq!['.'] + extension,
    }
}

/// The position of the last `@` in `s`.
fn last_at_exec(s: &Vec<char>) -> (r: Option<usize>)
    ensures
        match r {
            Some(i) => last_at(s@) == Some(i as int) && i < s@.len(),
            None => last_at(s@) is None,
        },
{
    let mut i = s.len();
    assert(s@.take(i as int) =~= s@);
    while i > 0
        invariant
            i <= s@.len(),
            last_at(s@) == last_at(s@.take(i as int)),
        decreases i,
    {
        assert(s@.take(i as int).drop_last() =~= s@.take(i - 1));
        if s[i - 1] == '@' {
            return Some(i - 1);
        }
        i = i - 1;
    }
    None
}

/// The name of the file that holds `script_name`.
pub fn script_file_name(script_name: &str, extension: &str) -> (r: String)
    ensures
        r@ == spec_script_file_name(script_name@, extension@),
{
    let name = chars_of(script_name);
    let count = name.len();
    let mut out: Vec<char> = Vec::new();
    match last_at_exec(&name) {
        Some(i) => {
            out.push('@');
            let mut j = i + 1;
            while j < name.len()
                invariant
                    i < j <= name@.len(),
                    out@ == seq!['@'] + name@.subrange(i + 1, j as int),
                decreases name@.len() - j,
            {
                out.push(name[j]);
                j = j + 1;
            }
        },
        None => {
            push_chars(&mut out, &name);
        },
    }
    out.push('.');
    push_chars(&mut out, &chars_of(extension));
    proof {
        assert(name@.take(name@.len() as int) =~= name@);
    }
    string_from_chars(out)
}

/// What a directory listing returns.
#[derive(Clone, Copy, Debug, PartialEq, Eq, Structural)]
pub enum DirMode {
    /// Only folders: the first filter is empty.
    Folders,
    /// Every file: the first filter is `*all`.
    AllFiles,
    /// Files whose extension matches one of the filters.
    Extensions,
}

pub open spec fn spec_dir_mode(filters: Seq<Seq<char>>) -> Option<DirMode> {
    if filters.len() == 0 {
        None
    } else if filters[0].len() == 0 {
        Some(DirMode::Folders)
    } else if filters[0] == "*all"@ {
        Some(DirMode::AllFiles)
    } else {
        Some(DirMode::Extensions)
    }
}

pub open spec fn views(v: Seq<String>) -> Seq<Seq<char>> {
    v.map_values(|s: String| s@)
}

/// The listing mode that the filters ask for; none without a filter.
pub fn dir_mode(filters: &Vec<String>) -> (r: Option<DirMode>)
    ensures
        r == spec_dir_mode(views(filters@)),
{
    if filters.len() == 0 {
        return None;
    }
    let first = chars_of(filters[0].as_str());
    if first.len() == 0 {
        return Some(DirMode::Folders);
    }
    let all = chars_of("*all");
    proof {
        reveal_strlit("*all");
    }
    if crate::text::same_chars(&first, &all) {
        Some(DirMode::AllFiles)
    } else {
        Some(DirMode::Extensions)
    }
}

/// `s` without every leading repetition of `prefix`.
pub open spec fn trim_start_all(s: Seq<char>, prefix: Seq<char>) -> Seq<char>
    decreases s.len(),
{
    if prefix.len() > 0 && prefix.len() <= s.len() && s.subrange(0, prefix.len() as int) == prefix {
        trim_start_all(s.subrange(prefix.len() as int, s.len() as int), prefix)
    } else {
        s
    }
}

/// The extension a filter names: `*.png`, `.png` and `png` all name `png`.
pub open spec fn filter_extension(filter: Seq<char>) -> Seq<char> {
    trim_start_all(trim_start_all(filter, "*."@), "."@)
}

/// The code of `c` with ASCII capitals lowered.
pub open spec fn ascii_lower(c: char) -> int {
    if 'A' <= c <= 'Z' {
        (c as u32) + 32
    } else {
        c as u32 as int
    }
}

/// Equality up to the case of ASCII letters.
pub open spec fn eq_ignore_ascii_case(a: Seq<char>, b: Seq<char>) -> bool {
    a.len() == b.len() && forall|i: int| 0 <= i < a.len() ==> ascii_lower(#[trigger] a[i]) == ascii_lower(b[i])
}

/// Whether a directory entry belongs in the listing.
pub open spec fn spec_entry_matches(
    mode: DirMode,
    filters: Seq<Seq<char>>,
    is_dir: bool,
    is_file: bool,
    extension: Option<Seq<char>>,
) -> bool {
    match mode {
        DirMode::Folders => is_dir,
        DirMode::AllFiles => is_file,
        DirMode::Extensions => is_file && match extension {
            None => false,
            Some(e) => exists|k: int| 0 <= k < filters.len()
                && eq_ignore_ascii_case(e, filter_extension(#[trigger] filters[k])),
        },
    }
}

fn lower_exec(c: char) -> (r: u32)
    ensures
        r == ascii_lower(c),
{
    if 'A' <= c && c <= 'Z' {
        (c as u32) + 32
    } else {
        c as u32
    }
}

fn eq_ignore_ascii_case_exec(a: &Vec<char>, b: &Vec<char>) -> (r: bool)
    ensures
        r == eq_ignore_ascii_case(a@, b@),
{
    if a.len() != b.len() {
        return false;
    }
    let mut i: usize = 0;
    while i < a.len()
        invariant
            a@.len() == b@.len(),
            i <= a@.len(),
            forall|j: int| 0 <= j < i ==> ascii_lower(#[trigger] a@[j]) == ascii_lower(b@[j]),
        decreases a@.len() - i,
    {
        if lower_exec(a[i]) != lower_exec(b[i]) {
            return false;
        }
        i = i + 1;
    }
    true
}

fn trim_start_all_exec(s: Vec<char>, prefix: &Vec<char>) -> (r: Vec<char>)
    requires
        prefix@.len() > 0,
    ensures
        r@ == trim_start_all(s@, prefix@),
{
    let mut start: usize = 0;
    let n = s.len();
    assert(s@.subrange(0, s@.len() as int) =~= s@);
    loop
        invariant
            n == s@.len(),
            prefix@.len() > 0,
            start <= s@.len(),
            trim_start_all(s@, prefix@) == trim_start_all(s@.subrange(start as int, s@.len() as int), prefix@),
        ensures
            start <= s@.len(),
            !crate::scan::matches_at(s@, start as int, prefix@),
            trim_start_all(s@, prefix@) == trim_start_all(s@.subrange(start as int, s@.len() as int), prefix@),
        decreases s@.len() - start,
    {
        if !crate::scan::matches_at_exec(&s, start, prefix) {
            break;
        }
        assert(s@.subrange(start as int, s@.len() as int).subrange(0, prefix@.len() as int)
            =~= s@.subrange(start as int, start + prefix@.len()));
        assert(s@.subrange(start as int, s@.len() as int).subrange(prefix@.len() as int, s@.len() - start)
            =~= s@.subrange(start + prefix@.len(), s@.len() as int));
        start = start + prefix.len();
    }
    proof {
        if start + prefix@.len() <= s@.len() {
            assert(s@.subrange(start as int, s@.len() as int).subrange(0, prefix@.len() as int)
                =~= s@.subrange(start as int, start + prefix@.len()));
        }
    }
    crate::scan::slice(&s, start, s.len())
}

fn filter_extension_exec(filter: &str) -> (r: Vec<char>)
    ensures
        r@ == filter_extension(filter@),
{
    let star_dot = chars_of("*.");
    let dot = chars_of(".");
    proof {
        reveal_strlit("*.");
        reveal_strlit(".");
    }
    let once = trim_start_all_exec(chars_of(filter), &star_dot);
    trim_start_all_exec(once, &dot)
}

/// Whether an entry is listed: a folder in folder mode, any file with `*all`,
/// otherwise a file whose extension equals one of the filters' extensions,
/// ignoring ASCII case.
pub fn entry_matches(mode: DirMode, filters: &Vec<String>, is_dir: bool, is_file: bool, extension: Option<&str>) -> (r: bool)
    ensures
        r == spec_entry_matches(mode, views(filters@), is_dir, is_file, match extension {
            Some(e) => Some(e@),
            None => None,
        }),
{
    match mode {
        DirMode::Folders => is_dir,
        DirMode::AllFiles => is_file,
        DirMode::Extensions => {
            if !is_file {
                return false;
            }
            let e = match extension {
                None => {
                    return false;
                },
                Some(e) => chars_of(e),
            };
            let ghost fs = views(filters@);
            let mut k: usize = 0;
            while k < filters.len()
                invariant
                    k <= filters@.len(),
                    fs == views(filters@),
                    fs.len() == filters@.len(),
                    mode == DirMode::Extensions,
                    is_file,
                    extension matches Some(x) && x@ == e@,
                    forall|j: int| 0 <= j < k ==> !eq_ignore_ascii_case(e@, filter_extension(#[trigger] fs[j])),
                decreases filters@.len() - k,
            {
                let f = filter_extension_exec(filters[k].as_str());
                if eq_ignore_ascii_case_exec(&e, &f) {
                    assert(fs[k as int] == filters@[k as int]@);
                    assert(eq_ignore_ascii_case(e@, filter_extension(fs[k as int])));
                    return true;
                }
                k = k + 1;
            }
            false
        },
    }
}

/// Whether an exported image keeps the extension its file name has: one that
/// names the format, ignoring ASCII case, or `jpeg` for `jpg`. Otherwise the
/// format is added as a further extension.
pub open spec fn spec_keeps_extension(extension: Option<Seq<char>>, format: Seq<char>) -> bool {
    match extension {
        None => false,
        Some(e) => eq_ignore_ascii_case(e, format) || (format == "jpg"@ && eq_ignore_ascii_case(e, "jpeg"@)),
    }
}

pub fn keeps_extension(extension: Option<&str>, format: &str) -> (r: bool)
    ensures
        r == spec_keeps_extension(match extension {
            Some(e) => Some(e@),
            None => None,
        }, format@),
{
    let e = match extension {
        None => {
            return false;
        },
        Some(e) => chars_of(e),
    };
    let f = chars_of(format);
    if eq_ignore_ascii_case_exec(&e, &f) {
        return true;
    }
    let jpeg = chars_of("jpeg");
    crate::text::str_equal(format, "jpg") && eq_ignore_ascii_case_exec(&e, &jpeg)
}

} // verus!
