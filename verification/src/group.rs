//! Parameter groups: one `--value` parameter of a script replaced by a
//! group of typed parameters.
use vstd::prelude::*;
use crate::lua_string::{decode_parameter_string, spec_decode_parameter_string};
use crate::number::{parse_unsigned, parse_unsigned_exec};
use crate::scan::{trim, trim_exec};
use crate::script::ScriptError;
use crate::text::{chars_of, push_chars, push_str, same_chars};
use crate::image::{decimal, decimal_digits};
use crate::lines::{
    is_line_start, is_marker_at, lemma_line_end_bounds, line_end, line_end_exec, marker_line, marker_value,
    marker_value_exec,
};
use crate::scan::{find_from, find_from_exec, matches_at, matches_at_exec};
use crate::script::{
    body_from, break_from, char_views, expand_dialog, join, join_exec, script_body_start, script_section,
    spec_expand_dialog, spec_script_section,
};

verus! {

/// What the numbers of one parameter definition are, as floating-point
/// values: whether the bounds and the default parse, whether the bounds are
/// finite and in order and both zero, whether the default lies within
/// them, and the bounds as `{}` prints them.
pub struct NumericBounds {
    pub parsed: bool,
    pub valid: bool,
    pub zero: bool,
    pub min_text: String,
    pub max_text: String,
    pub default_parsed: bool,
    pub default_fits: bool,
}

pub struct SpecBounds {
    pub parsed: bool,
    pub valid: bool,
    pub zero: bool,
    pub min_text: Seq<char>,
    pub max_text: Seq<char>,
    pub default_parsed: bool,
    pub default_fits: bool,
}

impl NumericBounds {
    pub open spec fn spec_bounds(&self) -> SpecBounds {
        SpecBounds {
            parsed: self.parsed,
            valid: self.valid,
            zero: self.zero,
            min_text: self.min_text@,
            max_text: self.max_text@,
            default_parsed: self.default_parsed,
            default_fits: self.default_fits,
        }
    }
}

/// The position of the last `*`.
pub open spec fn last_star(s: Seq<char>) -> Option<int>
    decreases s.len(),
{
    if s.len() == 0 {
        None
    } else if s.last() == '*' {
        Some(s.len() - 1)
    } else {
        last_star(s.drop_last())
    }
}

/// The kind, step and label that a label's suffix after its last `*`
/// gives: a file, folder, font or colour parameter, or a track with that
/// step.
pub open spec fn suffix_kind(label: Seq<char>) -> Result<(Seq<char>, Seq<char>, Seq<char>), ScriptError> {
    match last_star(label) {
        None => Ok(("value"@, "1"@, label)),
        Some(k) => {
            let text = label.subrange(0, k);
            let suffix = label.subrange(k + 1, label.len() as int);
            if suffix == "file"@ || suffix == "folder"@ || suffix == "font"@ || suffix == "color"@ {
                Ok((suffix, "1"@, text))
            } else if suffix == "1"@ || suffix == "0.1"@ || suffix == "0.01"@ || suffix == "0.001"@ {
                Ok(("track"@, suffix, text))
            } else {
                Err(ScriptError::UnknownSuffix)
            }
        },
    }
}

/// The text with each `\r` written `\\r` and each `\n` written `\\n`.
pub open spec fn escape_breaks(s: Seq<char>) -> Seq<char>
    decreases s.len(),
{
    if s.len() == 0 {
        Seq::empty()
    } else {
        let c = s.last();
        escape_breaks(s.drop_last()) + if c == '\r' {
            seq!['\\', 'r']
        } else if c == '\n' {
            seq!['\\', 'n']
        } else {
            seq![c]
        }
    }
}

pub open spec fn is_string_kind(kind: Seq<char>) -> bool {
    kind == "string"@ || kind == "file"@ || kind == "folder"@ || kind == "font"@
}

/// The kind that a parameter ends up with: one without a suffix is a track
/// where it has bounds, else a check box, a string or a plain value by its
/// default.
pub open spec fn final_kind(kind: Seq<char>, default: Seq<char>, zero: bool) -> Seq<char> {
    if kind == "value"@ {
        if !zero {
            "track"@
        } else if default == "true"@ || default == "false"@ {
            "check"@
        } else if default[0] == '"' {
            "string"@
        } else {
            "value"@
        }
    } else {
        kind
    }
}

/// What follows the label in the declaration: bounds, default and step for
/// a track, the decoded default for a string, the default otherwise.
pub open spec fn settings_of(kind: Seq<char>, default: Seq<char>, step: Seq<char>, b: SpecBounds) -> Result<Seq<char>, ScriptError> {
    if kind == "track"@ {
        if !b.default_parsed {
            Err(ScriptError::InvalidNumber)
        } else if !b.default_fits {
            Err(ScriptError::DefaultOutOfRange)
        } else {
            Ok(b.min_text + ","@ + b.max_text + ","@ + default + ","@ + step)
        }
    } else if is_string_kind(kind) {
        if !(default[0] == '"' && b.zero) {
            Err(ScriptError::StringBounds)
        } else {
            match spec_decode_parameter_string(default) {
                Err(e) => Err(ScriptError::String(e)),
                Ok(d) => Ok(escape_breaks(d)),
            }
        }
    } else if kind == "color"@ {
        if !b.zero {
            Err(ScriptError::ColorBounds)
        } else if default == "nil"@ {
            Ok(default)
        } else {
            match parse_unsigned(default, u32::MAX as nat) {
                None => Err(ScriptError::InvalidNumber),
                Some(c) => if c > 0xffffff {
                    Err(ScriptError::InvalidColor)
                } else {
                    Ok(default)
                },
            }
        }
    } else {
        Ok(default)
    }
}

/// The declaration of one parameter of a group, under a generated
/// variable name.
pub open spec fn spec_group_parameter_line(
    variable: Seq<char>,
    label0: Seq<char>,
    default0: Seq<char>,
    b: SpecBounds,
) -> Result<Seq<char>, ScriptError> {
    if label0.len() == 0 || label0.contains(',') || label0.contains('\r') || label0.contains('\n')
        || default0.contains('\r') || default0.contains('\n') {
        Err(ScriptError::MultilineParameter)
    } else if !b.parsed {
        Err(ScriptError::InvalidNumber)
    } else if !b.valid {
        Err(ScriptError::InvalidRange)
    } else {
        match suffix_kind(label0) {
            Err(e) => Err(e),
            Ok((kind0, step, label)) => {
                let default = trim(default0);
                if label.len() == 0 {
                    Err(ScriptError::EmptyLabel)
                } else if default.len() == 0 {
                    Err(ScriptError::EmptyDefault)
                } else {
                    let kind = final_kind(kind0, default, b.zero);
                    match settings_of(kind, default, step, b) {
                        Err(e) => Err(e),
                        Ok(settings) => {
                            let declaration = "--"@ + kind + "@"@ + variable + ":"@ + variable + "::"@ + label;
                            if kind == "file"@ || kind == "folder"@ {
                                Ok(declaration)
                            } else {
                                Ok(declaration + ","@ + settings)
                            }
                        },
                    }
                }
            },
        }
    }
}

pub fn contains_char(s: &Vec<char>, c: char) -> (r: bool)
    ensures
        r == s@.contains(c),
{
    let mut i: usize = 0;
    while i < s.len()
        invariant
            i <= s@.len(),
            forall|j: int| 0 <= j < i ==> s@[j] != c,
        decreases s@.len() - i,
    {
        if s[i] == c {
            assert(s@[i as int] == c);
            return true;
        }
        i = i + 1;
    }
    false
}

fn is_literal(s: &Vec<char>, lit: &str) -> (r: bool)
    ensures
        r == (s@ == lit@),
{
    let l = chars_of(lit);
    same_chars(s, &l)
}

fn last_star_exec(s: &Vec<char>) -> (r: Option<usize>)
    ensures
        match r {
            Some(k) => last_star(s@) == Some(k as int) && k < s@.len(),
            None => last_star(s@) is None,
        },
{
    let mut k = s.len();
    assert(s@.take(k as int) =~= s@);
    while k > 0 && s[k - 1] != '*'
        invariant
            k <= s@.len(),
            last_star(s@) == last_star(s@.take(k as int)),
        decreases k,
    {
        assert(s@.take(k as int).drop_last() =~= s@.take(k - 1));
        k = k - 1;
    }
    if k == 0 {
        assert(last_star(s@.take(0)) is None);
        None
    } else {
        assert(last_star(s@.take(k as int)) == Some(k - 1));
        Some(k - 1)
    }
}

fn suffix_kind_exec(label: &Vec<char>) -> (r: Result<(Vec<char>, Vec<char>, Vec<char>), ScriptError>)
    ensures
        match (suffix_kind(label@), r) {
            (Ok((a, b, c)), Ok((x, y, z))) => x@ == a && y@ == b && z@ == c,
            (Err(a), Err(b)) => a == b,
            _ => false,
        },
{
    match last_star_exec(label) {
        None => Ok((chars_of("value"), chars_of("1"), crate::text::copy_chars(label))),
        Some(k) => {
            let n = label.len();
            let text = crate::scan::slice(label, 0, k);
            let suffix = crate::scan::slice(label, k + 1, label.len());
            if is_literal(&suffix, "file") || is_literal(&suffix, "folder") || is_literal(&suffix, "font")
                || is_literal(&suffix, "color") {
                Ok((suffix, chars_of("1"), text))
            } else if is_literal(&suffix, "1") || is_literal(&suffix, "0.1") || is_literal(&suffix, "0.01")
                || is_literal(&suffix, "0.001") {
                Ok((chars_of("track"), suffix, text))
            } else {
                Err(ScriptError::UnknownSuffix)
            }
        },
    }
}

pub fn escape_breaks_exec(s: &Vec<char>) -> (r: Vec<char>)
    ensures
        r@ == escape_breaks(s@),
{
    let mut out: Vec<char> = Vec::new();
    let mut i: usize = 0;
    while i < s.len()
        invariant
            i <= s@.len(),
            out@ == escape_breaks(s@.take(i as int)),
        decreases s@.len() - i,
    {
        let c = s[i];
        proof {
            assert(s@.take(i + 1).drop_last() =~= s@.take(i as int));
            assert(s@.take(i + 1).last() == c);
        }
        if c == '\r' {
            out.push('\\');
            out.push('r');
        } else if c == '\n' {
            out.push('\\');
            out.push('n');
        } else {
            out.push(c);
        }
        proof {
            assert(out@ =~= escape_breaks(s@.take(i + 1)));
        }
        i = i + 1;
    }
    assert(s@.take(s@.len() as int) =~= s@);
    out
}

fn settings_exec(kind: &Vec<char>, default: &Vec<char>, step: &Vec<char>, b: &NumericBounds) -> (r: Result<Vec<char>, ScriptError>)
    requires
        default@.len() > 0,
    ensures
        match (settings_of(kind@, default@, step@, b.spec_bounds()), r) {
            (Ok(a), Ok(x)) => x@ == a,
            (Err(a), Err(x)) => a == x,
            _ => false,
        },
{
    if is_literal(kind, "track") {
        if !b.default_parsed {
            return Err(ScriptError::InvalidNumber);
        }
        if !b.default_fits {
            return Err(ScriptError::DefaultOutOfRange);
        }
        let mut out = chars_of(b.min_text.as_str());
        push_str(&mut out, ",");
        push_str(&mut out, b.max_text.as_str());
        push_str(&mut out, ",");
        push_chars(&mut out, default);
        push_str(&mut out, ",");
        push_chars(&mut out, step);
        assert(out@ == b.spec_bounds().min_text + ","@ + b.spec_bounds().max_text + ","@ + default@ + ","@ + step@);
        Ok(out)
    } else if is_literal(kind, "string") || is_literal(kind, "file") || is_literal(kind, "folder") || is_literal(kind, "font") {
        assert(is_string_kind(kind@));
        if !(default[0] == '"' && b.zero) {
            return Err(ScriptError::StringBounds);
        }
        let text = crate::text::string_from_chars(crate::text::copy_chars(default));
        match decode_parameter_string(text.as_str()) {
            Err(e) => Err(ScriptError::String(e)),
            Ok(d) => {
                let r = escape_breaks_exec(&chars_of(d.as_str()));
                assert(text@ == default@);
                assert(settings_of(kind@, default@, step@, b.spec_bounds()) == Ok::<Seq<char>, ScriptError>(r@));
                Ok(r)
            },
        }
    } else if is_literal(kind, "color") {
        if !b.zero {
            return Err(ScriptError::ColorBounds);
        }
        if is_literal(default, "nil") {
            return Ok(crate::text::copy_chars(default));
        }
        match parse_unsigned_exec(default, 0xffff_ffff) {
            None => Err(ScriptError::InvalidNumber),
            Some(c) => if c > 0xffffff {
                Err(ScriptError::InvalidColor)
            } else {
                Ok(crate::text::copy_chars(default))
            },
        }
    } else {
        Ok(crate::text::copy_chars(default))
    }
}

proof fn lemma_last_star_append(s: Seq<char>, t: Seq<char>)
    requires
        !t.contains('*'),
    ensures
        last_star(s + t) == last_star(s),
    decreases t.len(),
{
    if t.len() > 0 {
        assert(t.last() != '*') by {
            assert(t[t.len() - 1] == t.last());
        };
        assert((s + t).drop_last() =~= s + t.drop_last());
        assert(!t.drop_last().contains('*')) by {
            if t.drop_last().contains('*') {
                let i = choose|i: int| 0 <= i < t.drop_last().len() && t.drop_last()[i] == '*';
                assert(t[i] == '*');
            }
        };
        lemma_last_star_append(s, t.drop_last());
    } else {
        assert(s + t =~= s);
    }
}

proof fn lemma_no_star(s: Seq<char>)
    requires
        !s.contains('*'),
    ensures
        last_star(s) is None,
{
    lemma_last_star_append(Seq::empty(), s);
    assert(Seq::<char>::empty() + s =~= s);
}

/// A parameter whose label ends in `*font`, `*file` or `*folder` is declared
/// with that kind and the label before the star. A font's declaration goes
/// on with a comma and its decoded default; a file's or a folder's ends
/// right after the label. Each needs a quoted default and zero bounds.
pub proof fn lemma_suffixed_string_declaration(
    variable: Seq<char>,
    text: Seq<char>,
    suffix: Seq<char>,
    default0: Seq<char>,
    b: SpecBounds,
)
    requires
        suffix == "font"@ || suffix == "file"@ || suffix == "folder"@,
    ensures
        ({
            let label0 = text + "*"@ + suffix;
            let default = trim(default0);
            let declaration = "--"@ + suffix + "@"@ + variable + ":"@ + variable + "::"@ + text;
            spec_group_parameter_line(variable, label0, default0, b) == if label0.contains(',') || label0.contains('\r')
                || label0.contains('\n') || default0.contains('\r') || default0.contains('\n') {
                Err(ScriptError::MultilineParameter)
            } else if !b.parsed {
                Err(ScriptError::InvalidNumber)
            } else if !b.valid {
                Err(ScriptError::InvalidRange)
            } else if text.len() == 0 {
                Err(ScriptError::EmptyLabel)
            } else if default.len() == 0 {
                Err(ScriptError::EmptyDefault)
            } else if !(default[0] == '"' && b.zero) {
                Err(ScriptError::StringBounds)
            } else {
                match spec_decode_parameter_string(default) {
                    Err(e) => Err(ScriptError::String(e)),
                    Ok(d) => Ok(if suffix == "font"@ {
                        declaration + ","@ + escape_breaks(d)
                    } else {
                        declaration
                    }),
                }
            }
        }),
{
    reveal_strlit("*");
    reveal_strlit("font");
    reveal_strlit("file");
    reveal_strlit("folder");
    reveal_strlit("color");
    reveal_strlit("value");
    let label0 = text + "*"@ + suffix;
    assert(!suffix.contains('*')) by {
        if suffix.contains('*') {
            let i = choose|i: int| 0 <= i < suffix.len() && suffix[i] == '*';
        }
    };
    lemma_last_star_append(text + "*"@, suffix);
    assert((text + "*"@).drop_last() =~= text);
    assert(last_star(text + "*"@) == Some(text.len() as int));
    assert(label0.subrange(0, text.len() as int) =~= text);
    assert(label0.subrange(text.len() as int + 1, label0.len() as int) =~= suffix);
    assert(label0.len() > 0);
    assert(suffix_kind(label0) == Ok::<_, ScriptError>((suffix, "1"@, text)));
    reveal_strlit("track");
    assert(suffix != "value"@) by {
        if suffix.len() == 5 {
            assert(suffix[0] != "value"@[0]);
        }
    };
    assert(suffix != "track"@);
    assert(final_kind(suffix, trim(default0), b.zero) == suffix);
    assert(is_string_kind(suffix));
    if suffix == "font"@ {
        assert("font"@[1] != "file"@[1]);
        assert(suffix != "file"@ && suffix != "folder"@);
    }
}

/// A parameter whose label ends in `*1`, `*0.1`, `*0.01` or `*0.001` is a
/// track with that step: its declaration goes on after the label before
/// the star with the lower bound, the upper bound, the default and the
/// step, in that order. The default must be a number within the bounds.
pub proof fn lemma_step_suffix_declaration(variable: Seq<char>, text: Seq<char>, step: Seq<char>, default0: Seq<char>, b: SpecBounds)
    requires
        step == "1"@ || step == "0.1"@ || step == "0.01"@ || step == "0.001"@,
    ensures
        ({
            let label0 = text + "*"@ + step;
            let default = trim(default0);
            spec_group_parameter_line(variable, label0, default0, b) == if label0.contains(',') || label0.contains('\r')
                || label0.contains('\n') || default0.contains('\r') || default0.contains('\n') {
                Err(ScriptError::MultilineParameter)
            } else if !b.parsed {
                Err(ScriptError::InvalidNumber)
            } else if !b.valid {
                Err(ScriptError::InvalidRange)
            } else if text.len() == 0 {
                Err(ScriptError::EmptyLabel)
            } else if default.len() == 0 {
                Err(ScriptError::EmptyDefault)
            } else if !b.default_parsed {
                Err(ScriptError::InvalidNumber)
            } else if !b.default_fits {
                Err(ScriptError::DefaultOutOfRange)
            } else {
                Ok(
                    "--"@ + "track"@ + "@"@ + variable + ":"@ + variable + "::"@ + text + ","@ + (b.min_text + ","@ + b.max_text
                        + ","@ + default + ","@ + step),
                )
            }
        }),
{
    reveal_strlit("*");
    reveal_strlit("1");
    reveal_strlit("0.1");
    reveal_strlit("0.01");
    reveal_strlit("0.001");
    reveal_strlit("font");
    reveal_strlit("file");
    reveal_strlit("folder");
    reveal_strlit("color");
    reveal_strlit("value");
    reveal_strlit("track");
    let label0 = text + "*"@ + step;
    assert(!step.contains('*')) by {
        if step.contains('*') {
            let i = choose|i: int| 0 <= i < step.len() && step[i] == '*';
        }
    };
    lemma_last_star_append(text + "*"@, step);
    assert((text + "*"@).drop_last() =~= text);
    assert(label0.subrange(0, text.len() as int) =~= text);
    assert(label0.subrange(text.len() as int + 1, label0.len() as int) =~= step);
    assert(step != "file"@ && step != "folder"@ && step != "font"@ && step != "color"@) by {
        assert(step[0] == '0' || step[0] == '1');
    };
    assert(suffix_kind(label0) == Ok::<_, ScriptError>(("track"@, step, text)));
    assert("track"@ != "value"@) by {
        assert("track"@[0] != "value"@[0]);
    };
    assert(!is_string_kind("track"@)) by {
        reveal_strlit("string");
        assert("track"@.len() != "string"@.len());
        assert("track"@[0] != "font"@[0] && "track"@[0] != "file"@[0]);
    };
    assert("track"@ != "file"@ && "track"@ != "folder"@);
}

/// A parameter with a label without `*` and bounds that are not both zero
/// is a track with step 1, declared like one with a `*1` label.
pub proof fn lemma_ranged_declaration(variable: Seq<char>, label0: Seq<char>, default0: Seq<char>, b: SpecBounds)
    requires
        !label0.contains('*'),
        label0.len() > 0,
        !b.zero,
    ensures
        spec_group_parameter_line(variable, label0, default0, b) == spec_group_parameter_line(variable, label0 + "*"@ + "1"@, default0, b),
{
    reveal_strlit("*");
    reveal_strlit("1");
    reveal_strlit("value");
    reveal_strlit("track");
    lemma_no_star(label0);
    lemma_step_suffix_declaration(variable, label0, "1"@, default0, b);
    let l1 = label0 + "*"@ + "1"@;
    assert(l1.contains(',') == label0.contains(',')) by {
        if l1.contains(',') {
            let i = choose|i: int| 0 <= i < l1.len() && l1[i] == ',';
            assert(i < label0.len());
            assert(label0[i] == ',');
        }
        if label0.contains(',') {
            let i = choose|i: int| 0 <= i < label0.len() && label0[i] == ',';
            assert(l1[i] == ',');
        }
    };
    assert(l1.contains('\r') == label0.contains('\r')) by {
        if l1.contains('\r') {
            let i = choose|i: int| 0 <= i < l1.len() && l1[i] == '\r';
            assert(i < label0.len());
            assert(label0[i] == '\r');
        }
        if label0.contains('\r') {
            let i = choose|i: int| 0 <= i < label0.len() && label0[i] == '\r';
            assert(l1[i] == '\r');
        }
    };
    assert(l1.contains('\n') == label0.contains('\n')) by {
        if l1.contains('\n') {
            let i = choose|i: int| 0 <= i < l1.len() && l1[i] == '\n';
            assert(i < label0.len());
            assert(label0[i] == '\n');
        }
        if label0.contains('\n') {
            let i = choose|i: int| 0 <= i < label0.len() && label0[i] == '\n';
            assert(l1[i] == '\n');
        }
    };
    assert(final_kind("value"@, trim(default0), b.zero) == "track"@);
    assert(!is_string_kind("track"@)) by {
        reveal_strlit("string");
        reveal_strlit("font");
        reveal_strlit("file");
        reveal_strlit("folder");
        assert("track"@.len() != "string"@.len());
        assert("track"@[0] != "font"@[0] && "track"@[0] != "file"@[0]);
    };
}

/// A parameter whose label ends in `*color` is a colour: zero bounds, and a
/// default that is `nil` or a number up to `0xffffff`, which follows the
/// label before the star after a comma.
pub proof fn lemma_color_declaration(variable: Seq<char>, text: Seq<char>, default0: Seq<char>, b: SpecBounds)
    ensures
        ({
            let label0 = text + "*"@ + "color"@;
            let default = trim(default0);
            spec_group_parameter_line(variable, label0, default0, b) == if label0.contains(',') || label0.contains('\r')
                || label0.contains('\n') || default0.contains('\r') || default0.contains('\n') {
                Err(ScriptError::MultilineParameter)
            } else if !b.parsed {
                Err(ScriptError::InvalidNumber)
            } else if !b.valid {
                Err(ScriptError::InvalidRange)
            } else if text.len() == 0 {
                Err(ScriptError::EmptyLabel)
            } else if default.len() == 0 {
                Err(ScriptError::EmptyDefault)
            } else if !b.zero {
                Err(ScriptError::ColorBounds)
            } else if default != "nil"@ && parse_unsigned(default, u32::MAX as nat) is None {
                Err(ScriptError::InvalidNumber)
            } else if default != "nil"@ && parse_unsigned(default, u32::MAX as nat)->0 > 0xffffff {
                Err(ScriptError::InvalidColor)
            } else {
                Ok("--"@ + "color"@ + "@"@ + variable + ":"@ + variable + "::"@ + text + ","@ + default)
            }
        }),
{
    reveal_strlit("*");
    reveal_strlit("font");
    reveal_strlit("file");
    reveal_strlit("folder");
    reveal_strlit("color");
    reveal_strlit("value");
    reveal_strlit("track");
    reveal_strlit("string");
    let label0 = text + "*"@ + "color"@;
    assert(!"color"@.contains('*')) by {
        if "color"@.contains('*') {
            let i = choose|i: int| 0 <= i < "color"@.len() && "color"@[i] == '*';
        }
    };
    lemma_last_star_append(text + "*"@, "color"@);
    assert((text + "*"@).drop_last() =~= text);
    assert(label0.subrange(0, text.len() as int) =~= text);
    assert(label0.subrange(text.len() as int + 1, label0.len() as int) =~= "color"@);
    assert(suffix_kind(label0) == Ok::<_, ScriptError>(("color"@, "1"@, text)));
    assert("color"@ != "value"@) by {
        assert("color"@[0] != "value"@[0]);
    };
    assert("color"@ != "track"@) by {
        assert("color"@[0] != "track"@[0]);
    };
    assert(!is_string_kind("color"@)) by {
        assert("color"@[0] != "font"@[0] && "color"@[0] != "file"@[0]);
    };
    assert("color"@ != "file"@ && "color"@ != "folder"@);
}

/// A parameter with a label without `*`, zero bounds and a quoted default is
/// a string parameter: its declaration goes on after the label with a comma
/// and the decoded default.
pub proof fn lemma_quoted_default_declaration(variable: Seq<char>, label0: Seq<char>, default0: Seq<char>, b: SpecBounds)
    requires
        !label0.contains('*'),
        b.zero,
        trim(default0).len() > 0,
        trim(default0)[0] == '"',
        spec_group_parameter_line(variable, label0, default0, b) is Ok,
    ensures
        spec_decode_parameter_string(trim(default0)) matches Ok(d) && spec_group_parameter_line(variable, label0, default0, b)
            == Ok::<Seq<char>, ScriptError>("--"@ + "string"@ + "@"@ + variable + ":"@ + variable + "::"@ + label0 + ","@ + escape_breaks(d)),
{
    reveal_strlit("string");
    reveal_strlit("value");
    reveal_strlit("true");
    reveal_strlit("false");
    reveal_strlit("file");
    reveal_strlit("folder");
    lemma_no_star(label0);
    let default = trim(default0);
    assert(default != "true"@);
    assert(default != "false"@);
    assert(final_kind("value"@, default, b.zero) == "string"@);
    assert("string"@ != "file"@);
    assert("string"@[0] != "folder"@[0]);
    reveal_strlit("track");
    assert("string"@ != "track"@);
    assert(is_string_kind("string"@));
}

/// The declaration of one parameter of a group, under a generated
/// variable name.
pub fn group_parameter_line(variable: &Vec<char>, label0: &Vec<char>, default0: &Vec<char>, b: &NumericBounds) -> (r: Result<Vec<char>, ScriptError>)
    ensures
        match (spec_group_parameter_line(variable@, label0@, default0@, b.spec_bounds()), r) {
            (Ok(a), Ok(x)) => x@ == a,
            (Err(a), Err(x)) => a == x,
            _ => false,
        },
{
    if label0.len() == 0 || contains_char(label0, ',') || contains_char(label0, '\r') || contains_char(label0, '\n')
        || contains_char(default0, '\r') || contains_char(default0, '\n') {
        return Err(ScriptError::MultilineParameter);
    }
    if !b.parsed {
        return Err(ScriptError::InvalidNumber);
    }
    if !b.valid {
        return Err(ScriptError::InvalidRange);
    }
    let (kind0, step, label) = match suffix_kind_exec(label0) {
        Err(e) => return Err(e),
        Ok(t) => t,
    };
    let default = trim_exec(default0);
    if label.len() == 0 {
        return Err(ScriptError::EmptyLabel);
    }
    if default.len() == 0 {
        return Err(ScriptError::EmptyDefault);
    }
    let kind = if is_literal(&kind0, "value") {
        if !b.zero {
            chars_of("track")
        } else if is_literal(&default, "true") || is_literal(&default, "false") {
            chars_of("check")
        } else if default[0] == '"' {
            chars_of("string")
        } else {
            chars_of("value")
        }
    } else {
        kind0
    };
    assert(kind@ == final_kind(kind0@, default@, b.zero));
    let settings = match settings_exec(&kind, &default, &step, b) {
        Err(e) => return Err(e),
        Ok(s) => s,
    };
    let mut out = chars_of("--");
    push_chars(&mut out, &kind);
    push_str(&mut out, "@");
    push_chars(&mut out, variable);
    push_str(&mut out, ":");
    push_chars(&mut out, variable);
    push_str(&mut out, "::");
    push_chars(&mut out, &label);
    if is_literal(&kind, "file") || is_literal(&kind, "folder") {
        return Ok(out);
    }
    push_str(&mut out, ",");
    push_chars(&mut out, &settings);
    Ok(out)
}

/// The line that marks a parameter as replaced by a group.
pub open spec fn parameter_marker(name: Seq<char>) -> Seq<char> {
    "--rikky_modoki:parameter="@ + name
}

/// `str::lines` gives a line equal to `line`.
pub open spec fn has_line(s: Seq<char>, line: Seq<char>) -> bool {
    exists|p: int| marker_line(s, p, line) && #[trigger] marker_value(s, p, line).len() == 0
}

/// The first `,`, `\r` or `\n` at or after `i`, or the end.
pub open spec fn field_end(s: Seq<char>, i: int) -> int
    decreases s.len() - i,
{
    if 0 <= i < s.len() && s[i] != ',' && s[i] != '\r' && s[i] != '\n' {
        field_end(s, i + 1)
    } else {
        i
    }
}

/// A line `--value@name:label,...` at `p`, whose label is not empty.
pub open spec fn value_line(s: Seq<char>, p: int, head: Seq<char>) -> bool {
    let c = field_end(s, p + head.len());
    is_line_start(s, p) && matches_at(s, p, head) && c > p + head.len() && c < s.len() && s[c] == ','
}

/// The first such line at or after line start `p`.
pub open spec fn value_line_from(s: Seq<char>, head: Seq<char>, p: int) -> Option<int>
    decreases s.len() + 1 - p,
{
    if p < 0 || p > s.len() {
        None
    } else if value_line(s, p, head) {
        Some(p)
    } else {
        proof {
            lemma_line_end_bounds(s, p);
        }
        value_line_from(s, head, line_end(s, p) + 1)
    }
}

/// The generated name of the `i`-th parameter of a group.
pub open spec fn group_variable(name: Seq<char>, i: nat) -> Seq<char> {
    "__rikky_parameter_"@ + name + "_"@ + decimal(i + 1)
}

pub open spec fn contains_text(s: Seq<char>, pat: Seq<char>) -> bool {
    find_from(s, pat, 0) is Some
}

/// The declarations of the group's parameters from the `i`-th on; each
/// generated name must be free in the section.
pub open spec fn group_lines(
    section: Seq<char>,
    name: Seq<char>,
    entries: Seq<Seq<char>>,
    bounds: Seq<SpecBounds>,
    i: nat,
) -> Result<Seq<Seq<char>>, ScriptError>
    decreases bounds.len() - i,
{
    if i >= bounds.len() {
        Ok(Seq::empty())
    } else {
        let v = group_variable(name, i);
        if contains_text(section, "@"@ + v + ":"@) {
            Err(ScriptError::GeneratedNameTaken)
        } else {
            match spec_group_parameter_line(v, entries[4 * i as int], entries[4 * i as int + 1], bounds[i as int]) {
                Err(e) => Err(e),
                Ok(line) => match group_lines(section, name, entries, bounds, i + 1) {
                    Err(e) => Err(e),
                    Ok(rest) => Ok(seq![line] + rest),
                },
            }
        }
    }
}

/// The section with the `--value` parameter `name` replaced by the group,
/// and the group's table assigned to `name` where the body begins.
pub open spec fn spec_group_section(
    section: Seq<char>,
    name: Seq<char>,
    entries: Seq<Seq<char>>,
    bounds: Seq<SpecBounds>,
) -> Result<Seq<char>, ScriptError> {
    let head = "--value@"@ + name + ":"@;
    match value_line_from(section, head, 0) {
        None => Err(ScriptError::ParameterNotFound),
        Some(p) => {
            let c = field_end(section, p + head.len());
            let label = section.subrange(p + head.len(), c);
            let end = break_from(section, c + 1);
            let nl = crate::replacement::newline_of(section);
            match group_lines(section, name, entries, bounds, 0) {
                Err(e) => Err(e),
                Ok(lines) => {
                    let variables = Seq::new(bounds.len(), |i: int| group_variable(name, i as nat));
                    let all = seq![parameter_marker(name), "--group:"@ + label + ",false"@] + lines + seq!["--group"@];
                    let replaced = section.subrange(0, p) + join(all, nl) + section.subrange(end, section.len() as int);
                    let assignment = "local "@ + name + " = {"@ + join(variables, ", "@) + "}"@ + nl;
                    match body_from(replaced, 0) {
                        Err(e) => Err(e),
                        Ok(body) => if body == replaced.len() && !(replaced.len() > 0 && replaced.last() == '\n') {
                            Ok(replaced + nl + assignment)
                        } else {
                            Ok(replaced.subrange(0, body) + assignment + replaced.subrange(body, replaced.len() as int))
                        },
                    }
                },
            }
        },
    }
}

/// Replaces the `index`-th dialog parameter of the named script by a group
/// of parameters, one for each four entries (label, default, minimum,
/// maximum); `false` where the group stands there already.
pub open spec fn spec_expand_parameter_group(
    content: Seq<char>,
    script_name: Seq<char>,
    index: int,
    entries: Seq<Seq<char>>,
    bounds: Seq<SpecBounds>,
) -> Result<(bool, Seq<char>), ScriptError> {
    if entries.len() == 0 || entries.len() % 4 != 0 {
        Err(ScriptError::InvalidGroup)
    } else {
        match spec_script_section(content, script_name) {
            Err(e) => Err(e),
            Ok((a, b)) => match spec_expand_dialog(content.subrange(a, b)) {
                Err(e) => Err(e),
                Ok((names, section)) => if !(1 <= index <= names.len()) {
                    Err(ScriptError::IndexOutOfBounds)
                } else {
                    let name = names[index - 1];
                    if has_line(section, parameter_marker(name)) {
                        Ok((false, content))
                    } else {
                        match spec_group_section(section, name, entries, bounds) {
                            Err(e) => Err(e),
                            Ok(done) => Ok((true, content.subrange(0, a) + done + content.subrange(b, content.len() as int))),
                        }
                    }
                },
            },
        }
    }
}

pub open spec fn spec_bounds_of(bounds: Seq<NumericBounds>) -> Seq<SpecBounds> {
    Seq::new(bounds.len(), |i: int| bounds[i].spec_bounds())
}

/// Whether `str::lines` gives a line equal to `line`.
pub fn has_line_exec(s: &Vec<char>, line: &Vec<char>) -> (r: bool)
    ensures
        r == has_line(s@, line@),
{
    let mut p: usize = 0;
    loop
        invariant
            is_line_start(s@, p as int),
            forall|q: int| 0 <= q < p && marker_line(s@, q, line@) ==> #[trigger] marker_value(s@, q, line@).len() != 0,
        decreases s@.len() - p,
    {
        if is_marker_at(s, p, line) {
            let v = marker_value_exec(s, p, line);
            if v.len() == 0 {
                return true;
            }
        }
        let e = line_end_exec(s, p);
        proof {
            lemma_line_end_bounds(s@, p as int);
            assert forall|q: int| 0 <= q < e + 1 && marker_line(s@, q, line@) implies #[trigger] marker_value(s@, q, line@).len() != 0 by {
                if p < q <= e {
                    crate::lines::lemma_marker_line_basics(s@, q, line@);
                    assert(s@[q - 1] != '\n' || q - 1 == e);
                }
            };
        }
        if e >= s.len() {
            proof {
                assert forall|q: int| marker_line(s@, q, line@) implies #[trigger] marker_value(s@, q, line@).len() != 0 by {
                    crate::lines::lemma_marker_line_basics(s@, q, line@);
                };
            }
            return false;
        }
        p = e + 1;
    }
}

fn field_end_exec(s: &Vec<char>, i: usize) -> (r: usize)
    requires
        i <= s@.len(),
    ensures
        r == field_end(s@, i as int),
        i <= r <= s@.len(),
{
    let mut k = i;
    while k < s.len() && s[k] != ',' && s[k] != '\r' && s[k] != '\n'
        invariant
            i <= k <= s@.len(),
            field_end(s@, i as int) == field_end(s@, k as int),
        decreases s@.len() - k,
    {
        k = k + 1;
    }
    k
}

fn find_value_line(s: &Vec<char>, head: &Vec<char>) -> (r: Option<usize>)
    ensures
        match r {
            Some(p) => value_line_from(s@, head@, 0) == Some(p as int) && value_line(s@, p as int, head@),
            None => value_line_from(s@, head@, 0) is None,
        },
{
    let n = s.len();
    let mut p: usize = 0;
    loop
        invariant
            n == s@.len(),
            is_line_start(s@, p as int),
            value_line_from(s@, head@, 0) == value_line_from(s@, head@, p as int),
        decreases n - p,
    {
        if matches_at_exec(s, p, head) {
            let c = field_end_exec(s, p + head.len());
            if c > p + head.len() && c < n && s[c] == ',' {
                return Some(p);
            }
        }
        let e = line_end_exec(s, p);
        proof {
            lemma_line_end_bounds(s@, p as int);
        }
        if e >= n {
            assert(value_line_from(s@, head@, e + 1) is None);
            return None;
        }
        p = e + 1;
    }
}

fn group_variable_exec(name: &Vec<char>, i: usize) -> (r: Vec<char>)
    requires
        i < usize::MAX,
    ensures
        r@ == group_variable(name@, i as nat),
{
    let mut v = chars_of("__rikky_parameter_");
    push_chars(&mut v, name);
    push_str(&mut v, "_");
    let d = decimal_digits((i + 1) as u64);
    push_chars(&mut v, &d);
    v
}

fn group_lines_exec(
    section: &Vec<char>,
    name: &Vec<char>,
    entries: &Vec<Vec<char>>,
    bounds: &Vec<NumericBounds>,
) -> (r: Result<Vec<Vec<char>>, ScriptError>)
    requires
        entries@.len() == 4 * bounds@.len(),
    ensures
        match (group_lines(section@, name@, char_views(entries@), spec_bounds_of(bounds@), 0), r) {
            (Ok(a), Ok(b)) => char_views(b@) == a,
            (Err(a), Err(b)) => a == b,
            _ => false,
        },
{
    let ghost ev = char_views(entries@);
    let ghost bv = spec_bounds_of(bounds@);
    let mut lines: Vec<Vec<char>> = Vec::new();
    let mut i: usize = 0;
    let m = entries.len();
    assert(char_views(lines@) =~= Seq::<Seq<char>>::empty());
    while i < bounds.len()
        invariant
            m == entries@.len(),
            i <= bounds@.len(),
            entries@.len() == 4 * bounds@.len(),
            ev == char_views(entries@),
            bv == spec_bounds_of(bounds@),
            match group_lines(section@, name@, ev, bv, i as nat) {
                Ok(rest) => group_lines(section@, name@, ev, bv, 0) == Ok::<Seq<Seq<char>>, ScriptError>(char_views(lines@) + rest),
                Err(e) => group_lines(section@, name@, ev, bv, 0) == Err::<Seq<Seq<char>>, ScriptError>(e),
            },
        decreases bounds@.len() - i,
    {
        let v = group_variable_exec(name, i);
        let mut pat = chars_of("@");
        push_chars(&mut pat, &v);
        push_str(&mut pat, ":");
        if find_from_exec(section, &pat, 0).is_some() {
            return Err(ScriptError::GeneratedNameTaken);
        }
        let line = match group_parameter_line(&v, &entries[4 * i], &entries[4 * i + 1], &bounds[i]) {
            Err(e) => return Err(e),
            Ok(l) => l,
        };
        let ghost before = lines@;
        let ghost lv = line@;
        lines.push(line);
        proof {
            assert(char_views(lines@) =~= char_views(before) + seq![lv]);
            if let Ok(rest) = group_lines(section@, name@, ev, bv, (i + 1) as nat) {
                assert(char_views(before) + (seq![lv] + rest) =~= char_views(lines@) + rest);
            }
        }
        i = i + 1;
    }
    assert(char_views(lines@) + Seq::<Seq<char>>::empty() =~= char_views(lines@));
    Ok(lines)
}

fn group_section_exec(
    section: &Vec<char>,
    name: &Vec<char>,
    entries: &Vec<Vec<char>>,
    bounds: &Vec<NumericBounds>,
) -> (r: Result<Vec<char>, ScriptError>)
    requires
        entries@.len() == 4 * bounds@.len(),
    ensures
        match (spec_group_section(section@, name@, char_views(entries@), spec_bounds_of(bounds@)), r) {
            (Ok(a), Ok(b)) => b@ == a,
            (Err(a), Err(b)) => a == b,
            _ => false,
        },
{
    let mut head = chars_of("--value@");
    push_chars(&mut head, name);
    push_str(&mut head, ":");
    let p = match find_value_line(section, &head) {
        None => return Err(ScriptError::ParameterNotFound),
        Some(p) => p,
    };
    let n = section.len();
    let c = field_end_exec(section, p + head.len());
    let label = crate::scan::slice(section, p + head.len(), c);
    let end = crate::script::break_from_exec_pub(section, c + 1);
    let nl = crate::replacement::newline_exec(section);
    let lines = match group_lines_exec(section, name, entries, bounds) {
        Err(e) => return Err(e),
        Ok(l) => l,
    };
    let mut all: Vec<Vec<char>> = Vec::new();
    let mut marker = chars_of("--rikky_modoki:parameter=");
    push_chars(&mut marker, name);
    all.push(marker);
    let mut group = chars_of("--group:");
    push_chars(&mut group, &label);
    push_str(&mut group, ",false");
    all.push(group);
    let ghost first_two = char_views(all@);
    assert(first_two =~= seq![parameter_marker(name@), "--group:"@ + label@ + ",false"@]);
    let mut k: usize = 0;
    while k < lines.len()
        invariant
            k <= lines@.len(),
            all@.len() == 2 + k,
            char_views(all@) == first_two + char_views(lines@).take(k as int),
        decreases lines@.len() - k,
    {
        let l = crate::text::copy_chars(&lines[k]);
        let ghost before = all@;
        let ghost lv = l@;
        all.push(l);
        proof {
            assert(char_views(all@) =~= char_views(before).push(lv));
            assert(char_views(lines@).take(k + 1) =~= char_views(lines@).take(k as int).push(lv));
            assert(char_views(all@) =~= first_two + char_views(lines@).take(k + 1));
        }
        k = k + 1;
    }
    all.push(chars_of("--group"));
    proof {
        assert(char_views(lines@).take(lines@.len() as int) =~= char_views(lines@));
        assert(char_views(all@) =~= seq![parameter_marker(name@), "--group:"@ + label@ + ",false"@] + char_views(lines@) + seq!["--group"@]);
    }
    let mut replaced = crate::scan::slice(section, 0, p);
    let joined = join_exec(&all, &nl);
    push_chars(&mut replaced, &joined);
    let tail = crate::scan::slice(section, end, section.len());
    push_chars(&mut replaced, &tail);
    let mut variables: Vec<Vec<char>> = Vec::new();
    let mut i: usize = 0;
    while i < bounds.len()
        invariant
            i <= bounds@.len(),
            variables@.len() == i,
            forall|j: int| 0 <= j < i ==> #[trigger] variables@[j]@ == group_variable(name@, j as nat),
        decreases bounds@.len() - i,
    {
        variables.push(group_variable_exec(name, i));
        i = i + 1;
    }
    assert(char_views(variables@) =~= Seq::new(bounds@.len(), |i: int| group_variable(name@, i as nat)));
    let mut assignment = chars_of("local ");
    push_chars(&mut assignment, name);
    push_str(&mut assignment, " = {");
    let sep = chars_of(", ");
    let vars = join_exec(&variables, &sep);
    push_chars(&mut assignment, &vars);
    push_str(&mut assignment, "}");
    push_chars(&mut assignment, &nl);
    let body = match script_body_start(&replaced) {
        Err(e) => return Err(e),
        Ok(b) => b,
    };
    proof {
        crate::script::lemma_body_from(replaced@, 0);
    }
    if body == replaced.len() && !(replaced.len() > 0 && replaced[replaced.len() - 1] == '\n') {
        push_chars(&mut replaced, &nl);
        push_chars(&mut replaced, &assignment);
        Ok(replaced)
    } else {
        let mut out = crate::scan::slice(&replaced, 0, body);
        push_chars(&mut out, &assignment);
        let rest = crate::scan::slice(&replaced, body, replaced.len());
        push_chars(&mut out, &rest);
        Ok(out)
    }
}

/// Replaces the `index`-th dialog parameter of the named script by a group
/// of parameters, one for each four entries (label, default, minimum,
/// maximum), whose numbers `bounds` describes; `false` where the group
/// stands there already.
pub fn expand_parameter_group(
    content: &mut Vec<char>,
    script_name: &Vec<char>,
    index: usize,
    entries: &Vec<Vec<char>>,
    bounds: &Vec<NumericBounds>,
) -> (r: Result<bool, ScriptError>)
    requires
        entries@.len() % 4 == 0 ==> entries@.len() == 4 * bounds@.len(),
    ensures
        match (spec_expand_parameter_group(old(content)@, script_name@, index as int, char_views(entries@), spec_bounds_of(bounds@)), r) {
            (Ok((changed, text)), Ok(c)) => c == changed && final(content)@ == text,
            (Err(a), Err(b)) => a == b && final(content)@ == old(content)@,
            _ => false,
        },
{
    if entries.len() == 0 || entries.len() % 4 != 0 {
        return Err(ScriptError::InvalidGroup);
    }
    let (a, b) = match script_section(content, script_name) {
        Err(e) => return Err(e),
        Ok(r) => r,
    };
    let mut section = crate::scan::slice(content, a, b);
    let names = match expand_dialog(&mut section) {
        Err(e) => return Err(e),
        Ok(n) => n,
    };
    if index == 0 || index > names.len() {
        return Err(ScriptError::IndexOutOfBounds);
    }
    let name = &names[index - 1];
    let mut marker = chars_of("--rikky_modoki:parameter=");
    push_chars(&mut marker, name);
    if has_line_exec(&section, &marker) {
        return Ok(false);
    }
    let done = match group_section_exec(&section, name, entries, bounds) {
        Err(e) => return Err(e),
        Ok(d) => d,
    };
    let mut out = crate::scan::slice(content, 0, a);
    push_chars(&mut out, &done);
    let tail = crate::scan::slice(content, b, content.len());
    push_chars(&mut out, &tail);
    *content = out;
    Ok(true)
}

/// Whether the `index`-th dialog parameter of the named script still has
/// to be replaced by a group: always for a script that older rules
/// rewrote, never for one that was never rewritten, and otherwise where the
/// group's marker is missing.
pub open spec fn spec_group_needs_rewrite(content: Seq<char>, script_name: Seq<char>, index: int) -> Result<bool, ScriptError> {
    match crate::replacement::spec_replacement_version(content) {
        Err(e) => Err(e),
        Ok(Some(v)) if v < crate::replacement::REPLACEMENT_VERSION => Ok(true),
        Ok(None) => Ok(false),
        Ok(Some(_)) => match spec_script_section(content, script_name) {
            Err(e) => Err(e),
            Ok((a, b)) => match spec_expand_dialog(content.subrange(a, b)) {
                Err(e) => Err(e),
                Ok((names, section)) => if !(1 <= index <= names.len()) {
                    Err(ScriptError::IndexOutOfBounds)
                } else {
                    Ok(!has_line(section, parameter_marker(names[index - 1])))
                },
            },
        },
    }
}

pub fn group_needs_rewrite(content: &Vec<char>, script_name: &Vec<char>, index: usize) -> (r: Result<bool, ScriptError>)
    ensures
        r == spec_group_needs_rewrite(content@, script_name@, index as int),
{
    match crate::replacement::replacement_version(content) {
        Err(e) => return Err(e),
        Ok(None) => return Ok(false),
        Ok(Some(v)) => if v < crate::replacement::REPLACEMENT_VERSION {
            return Ok(true);
        },
    }
    let (a, b) = match script_section(content, script_name) {
        Err(e) => return Err(e),
        Ok(r) => r,
    };
    let mut section = crate::scan::slice(content, a, b);
    let names = match expand_dialog(&mut section) {
        Err(e) => return Err(e),
        Ok(n) => n,
    };
    if index == 0 || index > names.len() {
        return Err(ScriptError::IndexOutOfBounds);
    }
    let mut marker = chars_of("--rikky_modoki:parameter=");
    push_chars(&mut marker, &names[index - 1]);
    Ok(!has_line_exec(&section, &marker))
}

/// The first `,`, `\r` or `\n` at or after `i`, or the end.
pub fn field_end_pub(s: &Vec<char>, i: usize) -> (r: usize)
    requires
        i <= s@.len(),
    ensures
        r == field_end(s@, i as int),
        i <= r <= s@.len(),
{
    field_end_exec(s, i)
}

} // verus!
