//! Rewriting one dialog parameter of a script: into another type, or into
//! a selection list.
use vstd::prelude::*;
use crate::image::{decimal, decimal_digits};
use crate::lua_string::{spec_unescape_string, unescape_string};
use crate::number::{parse_unsigned, parse_unsigned_exec};
use crate::scan::{find_from, find_from_exec, lemma_find_from, matches_at, matches_at_exec};
use crate::script::{
    char_views, expand_dialog, join, join_exec, script_section, spec_expand_dialog, spec_script_section, ScriptError,
};
use crate::group::{contains_text, field_end};
use crate::text::{chars_of, copy_chars, push_chars, push_str, same_chars};

verus! {

/// `str::replace`: each occurrence of `pat` from `i` on, left to right and
/// without overlap, replaced by `rep`.
pub open spec fn replace_from(s: Seq<char>, pat: Seq<char>, rep: Seq<char>, i: int) -> Seq<char>
    decreases s.len() + 1 - i,
{
    if i < 0 || i > s.len() || pat.len() == 0 {
        s.subrange(if 0 <= i <= s.len() { i } else { s.len() as int }, s.len() as int)
    } else {
        match find_from(s, pat, i) {
            None => s.subrange(i, s.len() as int),
            Some(k) => {
                proof {
                    lemma_find_from(s, pat, i);
                }
                s.subrange(i, k) + rep + replace_from(s, pat, rep, k + pat.len())
            },
        }
    }
}

/// `str::replace` for a pattern that is not empty.
pub fn replace_all(s: &Vec<char>, pat: &Vec<char>, rep: &Vec<char>) -> (r: Vec<char>)
    requires
        pat@.len() > 0,
    ensures
        r@ == replace_from(s@, pat@, rep@, 0),
{
    let mut out: Vec<char> = Vec::new();
    let mut i: usize = 0;
    while i <= s.len()
        invariant
            i <= s@.len(),
            pat@.len() > 0,
            replace_from(s@, pat@, rep@, 0) == out@ + replace_from(s@, pat@, rep@, i as int),
        decreases s@.len() + 1 - i,
    {
        match find_from_exec(s, pat, i) {
            None => {
                let rest = crate::scan::slice(s, i, s.len());
                push_chars(&mut out, &rest);
                return out;
            },
            Some(k) => {
                proof {
                    lemma_find_from(s@, pat@, i as int);
                }
                let part = crate::scan::slice(s, i, k);
                push_chars(&mut out, &part);
                push_chars(&mut out, rep);
                i = k + pat.len();
            },
        }
    }
    out
}

/// The section of the named script with the `index`-th dialog parameter's
/// `--value@name:` declarations made `--type@name:`: the new text of the
/// script, or nothing where it has that type already and the dialog needed
/// no expanding.
pub open spec fn spec_retype_parameter(
    content: Seq<char>,
    script_name: Seq<char>,
    parameter_type: Seq<char>,
    index: int,
) -> Result<Option<Seq<char>>, ScriptError> {
    match spec_script_section(content, script_name) {
        Err(e) => Err(e),
        Ok((a, b)) => {
            let original = content.subrange(a, b);
            match spec_expand_dialog(original) {
                Err(e) => Err(e),
                Ok((names, section)) => if !(1 <= index <= names.len()) {
                    Err(ScriptError::IndexOutOfBounds)
                } else {
                    let name = names[index - 1];
                    let pattern = "--value@"@ + name + ":"@;
                    let replacement = "--"@ + parameter_type + "@"@ + name + ":"@;
                    let whole = |t: Seq<char>| content.subrange(0, a) + t + content.subrange(b, content.len() as int);
                    if !contains_text(section, pattern) {
                        if contains_text(section, replacement) {
                            Ok(if original != section {
                                Some(whole(section))
                            } else {
                                None
                            })
                        } else {
                            Err(ScriptError::ParameterNotFound)
                        }
                    } else {
                        Ok(Some(whole(replace_from(section, pattern, replacement, 0))))
                    }
                },
            }
        },
    }
}

/// Where `pat` occurs, the replacement of its occurrences holds `rep`.
proof fn lemma_replace_holds_rep(s: Seq<char>, pat: Seq<char>, rep: Seq<char>)
    requires
        pat.len() > 0,
        contains_text(s, pat),
    ensures
        contains_text(replace_from(s, pat, rep, 0), rep),
{
    lemma_find_from(s, pat, 0);
    let k = find_from(s, pat, 0)->0;
    let r = replace_from(s, pat, rep, 0);
    assert(r == s.subrange(0, k) + rep + replace_from(s, pat, rep, k + pat.len()));
    assert(matches_at(r, k, rep)) by {
        assert(r.subrange(k, k + rep.len()) =~= rep);
    };
    lemma_find_from(r, rep, 0);
}

/// Retyping changes the parameter named at position `index - 1` of the
/// expanded dialog: where the script declares it with `--value@name:`,
/// each such declaration becomes `--type@name:` and the text around the
/// script is kept; the retyped declaration is then in the script.
pub proof fn lemma_retype_targets_indexed_name(content: Seq<char>, script_name: Seq<char>, parameter_type: Seq<char>, index: int)
    ensures
        spec_script_section(content, script_name) matches Ok((a, b)) ==> match spec_expand_dialog(content.subrange(a, b)) {
            Ok((names, section)) => 1 <= index <= names.len() && contains_text(section, "--value@"@ + names[index - 1] + ":"@)
                ==> {
                let new_section = replace_from(
                    section,
                    "--value@"@ + names[index - 1] + ":"@,
                    "--"@ + parameter_type + "@"@ + names[index - 1] + ":"@,
                    0,
                );
                &&& spec_retype_parameter(content, script_name, parameter_type, index) == Ok::<Option<Seq<char>>, ScriptError>(
                    Some(content.subrange(0, a) + new_section + content.subrange(b, content.len() as int)),
                )
                &&& contains_text(new_section, "--"@ + parameter_type + "@"@ + names[index - 1] + ":"@)
            },
            Err(_) => true,
        },
{
    if let Ok((a, b)) = spec_script_section(content, script_name) {
        if let Ok((names, section)) = spec_expand_dialog(content.subrange(a, b)) {
            if 1 <= index <= names.len() && contains_text(section, "--value@"@ + names[index - 1] + ":"@) {
                reveal_strlit("--value@");
                lemma_replace_holds_rep(
                    section,
                    "--value@"@ + names[index - 1] + ":"@,
                    "--"@ + parameter_type + "@"@ + names[index - 1] + ":"@,
                );
            }
        }
    }
}

fn splice(content: &Vec<char>, a: usize, b: usize, mid: &Vec<char>) -> (r: Vec<char>)
    requires
        a <= b <= content@.len(),
    ensures
        r@ == content@.subrange(0, a as int) + mid@ + content@.subrange(b as int, content@.len() as int),
{
    let mut out = crate::scan::slice(content, 0, a);
    push_chars(&mut out, mid);
    let tail = crate::scan::slice(content, b, content.len());
    push_chars(&mut out, &tail);
    out
}

/// Gives the `index`-th dialog parameter of the named script another type.
pub fn retype_parameter(content: &Vec<char>, script_name: &Vec<char>, parameter_type: &Vec<char>, index: usize) -> (r: Result<Option<Vec<char>>, ScriptError>)
    ensures
        match (spec_retype_parameter(content@, script_name@, parameter_type@, index as int), r) {
            (Ok(Some(a)), Ok(Some(b))) => b@ == a,
            (Ok(None), Ok(None)) => true,
            (Err(a), Err(b)) => a == b,
            _ => false,
        },
{
    let (a, b) = match script_section(content, script_name) {
        Err(e) => return Err(e),
        Ok(r) => r,
    };
    let original = crate::scan::slice(content, a, b);
    let mut section = copy_chars(&original);
    let names = match expand_dialog(&mut section) {
        Err(e) => return Err(e),
        Ok(n) => n,
    };
    if index == 0 || index > names.len() {
        return Err(ScriptError::IndexOutOfBounds);
    }
    let name = &names[index - 1];
    let mut pattern = chars_of("--value@");
    push_chars(&mut pattern, name);
    push_str(&mut pattern, ":");
    let mut replacement = chars_of("--");
    push_chars(&mut replacement, parameter_type);
    push_str(&mut replacement, "@");
    push_chars(&mut replacement, name);
    push_str(&mut replacement, ":");
    if find_from_exec(&section, &pattern, 0).is_none() {
        if find_from_exec(&section, &replacement, 0).is_some() {
            if !same_chars(&original, &section) {
                return Ok(Some(splice(content, a, b, &section)));
            }
            return Ok(None);
        }
        return Err(ScriptError::ParameterNotFound);
    }
    proof {
        reveal_strlit("--value@");
    }
    let replaced = replace_all(&section, &pattern, &replacement);
    Ok(Some(splice(content, a, b, &replaced)))
}

/// What `regex_automata::util::interpolate::string` writes for a replacement
/// text whose capture references are filled in from numbered groups, with no
/// named groups.
pub uninterp spec fn regex_interpolated(replacement: Seq<char>, groups: Seq<Seq<char>>) -> Seq<char>;

/// `regex_automata::util::interpolate::string`, the capture expansion of a
/// regular expression replacement, with the `n`-th group filling `$n` and
/// `${n}` and no named groups. The result is named, not described.
#[verifier::external_body]
fn interpolate_groups(replacement: &str, groups: &Vec<String>) -> (r: String)
    ensures
        r@ == regex_interpolated(replacement@, groups@.map_values(|g: String| g@)),
{
    let mut dst = String::new();
    regex_automata::util::interpolate::string(
        replacement,
        |index, dst: &mut String| {
            if let Some(group) = groups.get(index) {
                dst.push_str(group)
            }
        },
        |_| None,
        &mut dst,
    );
    dst
}

/// `--value@name:label,default` at `k`: the comma after the label and the
/// end of the default. The label may run over lines; the default may not.
pub open spec fn select_match(s: Seq<char>, k: int, head: Seq<char>) -> Option<(int, int)> {
    if !matches_at(s, k, head) {
        None
    } else {
        let l0 = k + head.len();
        match find_from(s, seq![','], l0) {
            None => None,
            Some(c) => if c == l0 || field_end(s, c + 1) == c + 1 {
                None
            } else {
                Some((c, field_end(s, c + 1)))
            },
        }
    }
}

/// The first position at or after `k` where a select declaration matches.
pub open spec fn select_from(s: Seq<char>, head: Seq<char>, k: int) -> Option<int>
    decreases s.len() + 1 - k,
{
    if k < 0 || k > s.len() {
        None
    } else if select_match(s, k, head) is Some {
        Some(k)
    } else {
        select_from(s, head, k + 1)
    }
}

/// The first position at or after `i` of `x` in the list.
pub open spec fn index_in(list: Seq<Seq<char>>, x: Seq<char>, i: int) -> Option<int>
    decreases list.len() - i,
{
    if i < 0 || i >= list.len() {
        None
    } else if list[i] == x {
        Some(i)
    } else {
        index_in(list, x, i + 1)
    }
}

/// The number of the default choice: for a label with `*` the default
/// itself, else the position of the unescaped default among the choices;
/// 1 where neither gives one.
pub open spec fn default_choice(label: Seq<char>, default: Seq<char>, choices: Seq<Seq<char>>) -> nat {
    if label.len() > 0 && label[0] == '*' {
        match parse_unsigned(default, usize::MAX as nat) {
            Some(v) => v,
            None => 1,
        }
    } else {
        match index_in(choices, spec_unescape_string(default), 0) {
            Some(i) => (i + 1) as nat,
            None => 1,
        }
    }
}

proof fn lemma_index_in_first(list: Seq<Seq<char>>, x: Seq<char>, i: int, m: int)
    requires
        0 <= i <= m < list.len(),
        list[m] == x,
        forall|j: int| i <= j < m ==> list[j] != x,
    ensures
        index_in(list, x, i) == Some(m),
    decreases m - i,
{
    if i < m {
        lemma_index_in_first(list, x, i + 1, m);
    }
}

/// Without a `*` label, the selection starts on the first choice that equals
/// the unescaped default, counted from 1.
pub proof fn lemma_default_choice_first_match(label: Seq<char>, default: Seq<char>, choices: Seq<Seq<char>>, m: int)
    requires
        !(label.len() > 0 && label[0] == '*'),
        0 <= m < choices.len(),
        choices[m] == spec_unescape_string(default),
        forall|j: int| 0 <= j < m ==> choices[j] != spec_unescape_string(default),
    ensures
        default_choice(label, default, choices) == m + 1,
{
    lemma_index_in_first(choices, spec_unescape_string(default), 0, m);
}

/// The `--select` declaration and the line that maps the selection to the
/// parameter's value.
pub open spec fn select_text(name: Seq<char>, label: Seq<char>, default: Seq<char>, choices: Seq<Seq<char>>) -> Seq<char> {
    let options = Seq::new(choices.len(), |i: int| choices[i] + "="@ + decimal((i + 1) as nat));
    let select_line = "--select@tmp_"@ + name + ":"@ + label + "="@ + decimal(default_choice(label, default, choices))
        + ","@ + join(options, ","@);
    let mapping = if label.len() > 0 && label[0] == '*' {
        "local "@ + name + " = tmp_"@ + name
    } else {
        let quoted = Seq::new(choices.len(), |i: int| crate::text::debug_text(choices[i]));
        "local "@ + name + " = ({ "@ + join(quoted, ","@) + " })[tmp_"@ + name + "] or "@ + default
    };
    select_line + "\n"@ + mapping
}

/// The named script with the `index`-th dialog parameter made a selection
/// among the choices: its new text, or nothing where it is one already.
pub open spec fn spec_select_parameter(
    content: Seq<char>,
    script_name: Seq<char>,
    index: int,
    choices: Seq<Seq<char>>,
) -> Result<Option<Seq<char>>, ScriptError> {
    match spec_script_section(content, script_name) {
        Err(e) => Err(e),
        Ok((a, b)) => match spec_expand_dialog(content.subrange(a, b)) {
            Err(e) => Err(e),
            Ok((names, section)) => if !(1 <= index <= names.len()) {
                Err(ScriptError::IndexOutOfBounds)
            } else {
                let name = names[index - 1];
                let head = "--value@"@ + name + ":"@;
                match select_from(section, head, 0) {
                    None => if contains_text(section, "--select@tmp_"@ + name + ":"@) {
                        Ok(None)
                    } else {
                        Err(ScriptError::ParameterNotFound)
                    },
                    Some(k) => {
                        let (c, d) = select_match(section, k, head)->Some_0;
                        let label = section.subrange(k + head.len(), c);
                        let default = section.subrange(c + 1, d);
                        let groups = seq![section.subrange(k, d), label, default];
                        let text = regex_interpolated(select_text(name, label, default, choices), groups);
                        Ok(Some(content.subrange(0, a) + section.subrange(0, k) + text + section.subrange(d, section.len() as int)
                            + content.subrange(b, content.len() as int)))
                    },
                }
            },
        },
    }
}

/// Making a selection replaces the `--value@name:` declaration of the
/// parameter named at position `index - 1` of the expanded dialog, the
/// first one that has a label and a default: the declaration is swapped for
/// the selection text, whose `--select` line is named `tmp_` and that name,
/// and the rest of the content is kept.
pub proof fn lemma_select_targets_indexed_name(content: Seq<char>, script_name: Seq<char>, index: int, choices: Seq<Seq<char>>)
    ensures
        spec_script_section(content, script_name) matches Ok((a, b)) ==> match spec_expand_dialog(content.subrange(a, b)) {
            Ok((names, section)) => 1 <= index <= names.len() && select_from(section, "--value@"@ + names[index - 1] + ":"@, 0) is Some
                ==> {
                let name = names[index - 1];
                let head = "--value@"@ + name + ":"@;
                let k = select_from(section, head, 0)->0;
                let (c, d) = select_match(section, k, head)->0;
                let label = section.subrange(k + head.len(), c);
                let default = section.subrange(c + 1, d);
                let text = select_text(name, label, default, choices);
                let prefix = "--select@tmp_"@ + name + ":"@;
                &&& 0 <= k && matches_at(section, k, head)
                &&& text.len() >= prefix.len() && text.subrange(0, prefix.len() as int) == prefix
                &&& spec_select_parameter(content, script_name, index, choices) == Ok::<Option<Seq<char>>, ScriptError>(
                    Some(content.subrange(0, a) + section.subrange(0, k)
                        + regex_interpolated(text, seq![section.subrange(k, d), label, default])
                        + section.subrange(d, section.len() as int) + content.subrange(b, content.len() as int)),
                )
            },
            Err(_) => true,
        },
{
    if let Ok((a, b)) = spec_script_section(content, script_name) {
        if let Ok((names, section)) = spec_expand_dialog(content.subrange(a, b)) {
            let name = names[index - 1];
            let head = "--value@"@ + name + ":"@;
            if 1 <= index <= names.len() && select_from(section, head, 0) is Some {
                lemma_select_from_found(section, head, 0);
                let k = select_from(section, head, 0)->0;
                let (c, d) = select_match(section, k, head)->0;
                let label = section.subrange(k + head.len(), c);
                let default = section.subrange(c + 1, d);
                let text = select_text(name, label, default, choices);
                let prefix = "--select@tmp_"@ + name + ":"@;
                assert(text.subrange(0, prefix.len() as int) =~= prefix);
            }
        }
    }
}

proof fn lemma_select_from_found(s: Seq<char>, head: Seq<char>, k: int)
    requires
        select_from(s, head, k) is Some,
    ensures
        0 <= k <= select_from(s, head, k)->0,
        select_match(s, select_from(s, head, k)->0, head) is Some,
    decreases s.len() + 1 - k,
{
    if !(k < 0 || k > s.len()) && select_match(s, k, head) is None {
        lemma_select_from_found(s, head, k + 1);
    }
}

fn select_match_exec(s: &Vec<char>, k: usize, head: &Vec<char>, comma: &Vec<char>) -> (r: Option<(usize, usize)>)
    requires
        k <= s@.len(),
        comma@ == seq![','],
    ensures
        match r {
            Some((c, d)) => select_match(s@, k as int, head@) == Some((c as int, d as int)) && k + head@.len() < c < d <= s@.len(),
            None => select_match(s@, k as int, head@) is None,
        },
{
    if !matches_at_exec(s, k, head) {
        return None;
    }
    let n = s.len();
    let l0 = k + head.len();
    proof {
        lemma_find_from(s@, seq![','], l0 as int);
    }
    match find_from_exec(s, comma, l0) {
        None => None,
        Some(c) => {
            if c == l0 {
                return None;
            }
            let d = crate::group::field_end_pub(s, c + 1);
            if d == c + 1 {
                None
            } else {
                Some((c, d))
            }
        },
    }
}

fn find_select(s: &Vec<char>, head: &Vec<char>) -> (r: Option<(usize, usize, usize)>)
    ensures
        match r {
            Some((k, c, d)) => select_from(s@, head@, 0) == Some(k as int)
                && select_match(s@, k as int, head@) == Some((c as int, d as int))
                && k + head@.len() < c < d <= s@.len(),
            None => select_from(s@, head@, 0) is None,
        },
{
    let mut comma: Vec<char> = Vec::new();
    comma.push(',');
    let n = s.len();
    let mut k: usize = 0;
    while k <= n
        invariant
            n == s@.len(),
            k <= n + 1,
            comma@ == seq![','],
            select_from(s@, head@, 0) == select_from(s@, head@, k as int),
        decreases n + 1 - k,
    {
        if let Some((c, d)) = select_match_exec(s, k, head, &comma) {
            return Some((k, c, d));
        }
        if k == n {
            assert(select_from(s@, head@, k + 1) is None);
            return None;
        }
        k = k + 1;
    }
    None
}

fn index_in_exec(list: &Vec<Vec<char>>, x: &Vec<char>) -> (r: Option<usize>)
    ensures
        match r {
            Some(i) => index_in(char_views(list@), x@, 0) == Some(i as int) && i < list@.len(),
            None => index_in(char_views(list@), x@, 0) is None,
        },
{
    let mut i: usize = 0;
    while i < list.len()
        invariant
            i <= list@.len(),
            index_in(char_views(list@), x@, 0) == index_in(char_views(list@), x@, i as int),
        decreases list@.len() - i,
    {
        if same_chars(&list[i], x) {
            return Some(i);
        }
        i = i + 1;
    }
    None
}

fn default_choice_exec(label: &Vec<char>, default: &Vec<char>, choices: &Vec<Vec<char>>) -> (r: u64)
    ensures
        r as nat == default_choice(label@, default@, char_views(choices@)),
{
    if label.len() > 0 && label[0] == '*' {
        match parse_unsigned_exec(default, usize::MAX as u64) {
            Some(v) => v,
            None => 1,
        }
    } else {
        let text = crate::text::string_from_chars(copy_chars(default));
        let unescaped = unescape_string(text.as_str());
        let u = chars_of(unescaped.as_str());
        let m = choices.len();
        match index_in_exec(choices, &u) {
            Some(i) => (i + 1) as u64,
            None => 1,
        }
    }
}

fn select_text_exec(name: &Vec<char>, label: &Vec<char>, default: &Vec<char>, choices: &Vec<Vec<char>>) -> (r: Vec<char>)
    ensures
        r@ == select_text(name@, label@, default@, char_views(choices@)),
{
    let ghost cv = char_views(choices@);
    let mut options: Vec<Vec<char>> = Vec::new();
    let mut quoted: Vec<Vec<char>> = Vec::new();
    let mut i: usize = 0;
    while i < choices.len()
        invariant
            i <= choices@.len(),
            cv == char_views(choices@),
            options@.len() == i,
            quoted@.len() == i,
            forall|j: int| 0 <= j < i ==> #[trigger] options@[j]@ == cv[j] + "="@ + decimal((j + 1) as nat),
            forall|j: int| 0 <= j < i ==> #[trigger] quoted@[j]@ == crate::text::debug_text(cv[j]),
        decreases choices@.len() - i,
    {
        let mut o = copy_chars(&choices[i]);
        push_str(&mut o, "=");
        let d = decimal_digits((i + 1) as u64);
        push_chars(&mut o, &d);
        options.push(o);
        let text = crate::text::string_from_chars(copy_chars(&choices[i]));
        let q = crate::text::debug_quoted(text.as_str());
        quoted.push(chars_of(q.as_str()));
        i = i + 1;
    }
    let ghost ov = Seq::new(cv.len(), |j: int| cv[j] + "="@ + decimal((j + 1) as nat));
    let ghost qv = Seq::new(cv.len(), |j: int| crate::text::debug_text(cv[j]));
    assert(char_views(options@) =~= ov);
    assert(char_views(quoted@) =~= qv);
    let comma = chars_of(",");
    let mut out = chars_of("--select@tmp_");
    push_chars(&mut out, name);
    push_str(&mut out, ":");
    push_chars(&mut out, label);
    push_str(&mut out, "=");
    let choice = default_choice_exec(label, default, choices);
    let digits = decimal_digits(choice);
    push_chars(&mut out, &digits);
    push_str(&mut out, ",");
    let joined = join_exec(&options, &comma);
    push_chars(&mut out, &joined);
    push_str(&mut out, "\n");
    if label.len() > 0 && label[0] == '*' {
        push_str(&mut out, "local ");
        push_chars(&mut out, name);
        push_str(&mut out, " = tmp_");
        push_chars(&mut out, name);
    } else {
        push_str(&mut out, "local ");
        push_chars(&mut out, name);
        push_str(&mut out, " = ({ ");
        let q = join_exec(&quoted, &comma);
        push_chars(&mut out, &q);
        push_str(&mut out, " })[tmp_");
        push_chars(&mut out, name);
        push_str(&mut out, "] or ");
        push_chars(&mut out, default);
    }
    out
}

/// Makes the `index`-th dialog parameter of the named script a selection
/// among the choices.
pub fn select_parameter(content: &Vec<char>, script_name: &Vec<char>, index: usize, choices: &Vec<Vec<char>>) -> (r: Result<Option<Vec<char>>, ScriptError>)
    ensures
        match (spec_select_parameter(content@, script_name@, index as int, char_views(choices@)), r) {
            (Ok(Some(a)), Ok(Some(b))) => b@ == a,
            (Ok(None), Ok(None)) => true,
            (Err(a), Err(b)) => a == b,
            _ => false,
        },
{
    let (a, b) = match script_section(content, script_name) {
        Err(e) => return Err(e),
        Ok(r) => r,
    };
    let mut section = crate::scan::slice(content, a, b);
    let names = match expand_dialog(&mut section) {
        Err(e) => return Err(e),
        Ok(n) => n,
    };
    if index == 0 || index > names.len() {
        return Err(ScriptError::IndexOutOfBounds);
    }
    let name = &names[index - 1];
    let mut head = chars_of("--value@");
    push_chars(&mut head, name);
    push_str(&mut head, ":");
    let (k, c, d) = match find_select(&section, &head) {
        None => {
            let mut done = chars_of("--select@tmp_");
            push_chars(&mut done, name);
            push_str(&mut done, ":");
            if find_from_exec(&section, &done, 0).is_some() {
                return Ok(None);
            }
            return Err(ScriptError::ParameterNotFound);
        },
        Some(t) => t,
    };
    let label = crate::scan::slice(&section, k + head.len(), c);
    let default = crate::scan::slice(&section, c + 1, d);
    let mut groups: Vec<String> = Vec::new();
    groups.push(crate::text::string_from_chars(crate::scan::slice(&section, k, d)));
    groups.push(crate::text::string_from_chars(copy_chars(&label)));
    groups.push(crate::text::string_from_chars(copy_chars(&default)));
    assert(groups@.map_values(|g: String| g@) =~= seq![section@.subrange(k as int, d as int), label@, default@]);
    let rep = crate::text::string_from_chars(select_text_exec(name, &label, &default, choices));
    let expanded = interpolate_groups(rep.as_str(), &groups);
    let text = chars_of(expanded.as_str());
    let mut out = crate::scan::slice(content, 0, a);
    let before = crate::scan::slice(&section, 0, k);
    push_chars(&mut out, &before);
    push_chars(&mut out, &text);
    let after = crate::scan::slice(&section, d, section.len());
    push_chars(&mut out, &after);
    let tail = crate::scan::slice(content, b, content.len());
    push_chars(&mut out, &tail);
    Ok(Some(out))
}

/// One parameter of one script: what a rewrite is done for.
pub struct ParamReplaceRequest {
    pub script_name: String,
    pub extension: String,
    pub index: usize,
}

impl ParamReplaceRequest {
    pub open spec fn key(&self) -> (Seq<char>, Seq<char>, usize) {
        (self.script_name@, self.extension@, self.index)
    }
}

/// The parameters that were rewritten in this session: each is rewritten
/// at most once.
pub struct ReplacedParameters {
    requests: Vec<ParamReplaceRequest>,
}

impl ReplacedParameters {
    pub closed spec fn keys(&self) -> Seq<(Seq<char>, Seq<char>, usize)> {
        Seq::new(self.requests@.len(), |i: int| self.requests@[i].key())
    }

    /// The rewritten parameters.
    pub closed spec fn view(&self) -> Set<(Seq<char>, Seq<char>, usize)> {
        self.keys().to_set()
    }

    pub fn new() -> (r: ReplacedParameters)
        ensures
            r.view() == Set::<(Seq<char>, Seq<char>, usize)>::empty(),
    {
        let r = ReplacedParameters { requests: Vec::new() };
        assert(r.keys() =~= Seq::<(Seq<char>, Seq<char>, usize)>::empty());
        assert(r.view() =~= Set::<(Seq<char>, Seq<char>, usize)>::empty());
        r
    }

    /// Whether the parameter was rewritten.
    pub fn contains(&self, request: &ParamReplaceRequest) -> (r: bool)
        ensures
            r == self.view().contains(request.key()),
    {
        let mut i: usize = 0;
        while i < self.requests.len()
            invariant
                i <= self.requests@.len(),
                forall|j: int| 0 <= j < i ==> #[trigger] self.keys()[j] != request.key(),
            decreases self.requests@.len() - i,
        {
            let r = &self.requests[i];
            if crate::text::str_equal(r.script_name.as_str(), request.script_name.as_str())
                && crate::text::str_equal(r.extension.as_str(), request.extension.as_str()) && r.index == request.index {
                assert(self.keys()[i as int] == request.key());
                assert(self.keys().contains(request.key()));
                return true;
            }
            i = i + 1;
        }
        assert(!self.keys().contains(request.key()));
        false
    }

    /// Records that the parameter was rewritten.
    pub fn insert(&mut self, request: ParamReplaceRequest)
        ensures
            final(self).view() == old(self).view().insert(request.key()),
    {
        let ghost k = request.key();
        let ghost before = self.keys();
        self.requests.push(request);
        assert(self.keys() =~= before.push(k));
        assert(self.view() =~= before.to_set().insert(k)) by {
            assert forall|x| self.view().contains(x) <==> before.to_set().insert(k).contains(x) by {
                if self.keys().contains(x) {
                    let j = choose|j: int| 0 <= j < self.keys().len() && self.keys()[j] == x;
                    if j < before.len() {
                        assert(before[j] == x);
                    }
                }
                if before.contains(x) {
                    let j = choose|j: int| 0 <= j < before.len() && before[j] == x;
                    assert(self.keys()[j] == x);
                }
                if x == k {
                    assert(self.keys()[before.len() as int] == k);
                }
            };
        };
    }
}

/// Runs a rewrite of a parameter once per session: a parameter rewritten
/// already gives the default result without running `f`; a rewrite that
/// succeeds is recorded, one that fails is not.
pub fn replace_parameter_with_check<F, R, E>(
    replaced: &mut ReplacedParameters,
    script_name: &str,
    extension: &str,
    index: usize,
    f: F,
) -> (r: Result<R, E>)
    where
        R: Default,
        F: FnOnce() -> Result<R, E>,
    requires
        f.requires(()),
    ensures
        ({
            let key = (script_name@, extension@, index);
            &&& old(replaced).view().contains(key) ==> final(replaced).view() == old(replaced).view() && r is Ok
            &&& !old(replaced).view().contains(key) ==> f.ensures((), r)
                && final(replaced).view() == (if r is Ok {
                    old(replaced).view().insert(key)
                } else {
                    old(replaced).view()
                })
        }),
{
    let request = ParamReplaceRequest {
        script_name: crate::text::string_from_chars(chars_of(script_name)),
        extension: crate::text::string_from_chars(chars_of(extension)),
        index,
    };
    if replaced.contains(&request) {
        return Ok(R::default());
    }
    let result = f();
    if result.is_ok() {
        replaced.insert(request);
    }
    result
}

/// Why a parameter group could not be checked.
pub enum GroupCheckError<E> {
    /// The script could not be read.
    Read(E),
    /// The script does not hold what the check needs.
    Script(ScriptError),
}

/// Whether the group of parameter `index` still has to be rewritten. A
/// parameter handled already in this session needs nothing, and `read` is
/// not run; otherwise `read` gives the script, and a parameter whose group
/// needs no rewrite is recorded as handled.
pub fn group_parameter_needs_rewrite<F, E>(
    replaced: &mut ReplacedParameters,
    script_name: &str,
    extension: &str,
    index: usize,
    read: F,
) -> (r: Result<bool, GroupCheckError<E>>)
    where
        F: FnOnce() -> Result<String, E>,
    requires
        read.requires(()),
    ensures
        ({
            let key = (script_name@, extension@, index);
            &&& old(replaced).view().contains(key) ==> final(replaced).view() == old(replaced).view() && (r matches Ok(false))
            &&& !old(replaced).view().contains(key) ==> exists|c: Result<String, E>| #[trigger] read.ensures((), c) && match c {
                Err(e) => (r matches Err(GroupCheckError::Read(x)) && x == e) && final(replaced).view() == old(replaced).view(),
                Ok(content) => match crate::group::spec_group_needs_rewrite(content@, script_name@, index as int) {
                    Err(e) => (r matches Err(GroupCheckError::Script(x)) && x == e) && final(replaced).view() == old(replaced).view(),
                    Ok(true) => (r matches Ok(true)) && final(replaced).view() == old(replaced).view(),
                    Ok(false) => (r matches Ok(false)) && final(replaced).view() == old(replaced).view().insert(key),
                },
            }
        }),
{
    let request = ParamReplaceRequest {
        script_name: crate::text::string_from_chars(chars_of(script_name)),
        extension: crate::text::string_from_chars(chars_of(extension)),
        index,
    };
    if replaced.contains(&request) {
        return Ok(false);
    }
    let read_result = read();
    let text = match read_result {
        Err(e) => {
            return Err(GroupCheckError::Read(e));
        },
        Ok(t) => t,
    };
    let content = chars_of(text.as_str());
    let name = chars_of(script_name);
    match crate::group::group_needs_rewrite(&content, &name, index) {
        Err(e) => Err(GroupCheckError::Script(e)),
        Ok(true) => Ok(true),
        Ok(false) => {
            replaced.insert(request);
            Ok(false)
        },
    }
}

} // verus!
