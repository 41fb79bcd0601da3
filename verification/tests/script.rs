use rikky_modoki::group::{expand_parameter_group, group_needs_rewrite, group_parameter_line, NumericBounds};
use rikky_modoki::lua_string::{decode_parameter_string, unescape_string, StringError};
use rikky_modoki::rewrite::{
    group_parameter_needs_rewrite, replace_all, replace_parameter_with_check, retype_parameter, select_parameter,
    GroupCheckError, ReplacedParameters,
};
use rikky_modoki::script::{dialog_value_end, expand_dialog, script_body_start, script_section, ScriptError};

fn chars(s: &str) -> Vec<char> {
    s.chars().collect()
}

fn text(v: &[char]) -> String {
    v.iter().collect()
}

fn bounds(zero: bool, min: &str, max: &str, fits: bool) -> NumericBounds {
    NumericBounds {
        parsed: true,
        valid: true,
        zero,
        min_text: min.to_string(),
        max_text: max.to_string(),
        default_parsed: true,
        default_fits: fits,
    }
}

#[test]
fn string_defaults_decode_lua_escapes() {
    assert_eq!(decode_parameter_string("\"a\\nb\"").ok(), Some("a\nb".to_string()));
    assert_eq!(decode_parameter_string("\"\\65\\066x\"").ok(), Some("ABx".to_string()));
    assert_eq!(decode_parameter_string("\"\\\\\\\"\"").ok(), Some("\\\"".to_string()));
    assert_eq!(decode_parameter_string("a").err(), Some(StringError::NotQuoted));
    assert_eq!(decode_parameter_string("\"").err(), Some(StringError::NotQuoted));
    assert_eq!(decode_parameter_string("\"\\\"").err(), Some(StringError::IncompleteEscape));
    assert_eq!(decode_parameter_string("\"\\200\"").err(), Some(StringError::NonAsciiEscape));
    assert_eq!(decode_parameter_string("\"\\q\"").err(), Some(StringError::InvalidEscape));
    assert_eq!(decode_parameter_string("\"\\0\"").err(), Some(StringError::Nul));
}

#[test]
fn unescaping_strips_quotes_and_keeps_unknown_escapes() {
    assert_eq!(unescape_string("\"a\\tb\""), "a\tb");
    assert_eq!(unescape_string("'x\\'y'"), "x'y");
    assert_eq!(unescape_string("a\\qb"), "a\\qb");
    assert_eq!(unescape_string("\""), "");
    assert_eq!(unescape_string("end\\"), "end\\");
}

#[test]
fn sections_run_from_their_header_to_the_next() {
    let content = chars("top\n@one\nA\n@two\r\nB\n@three\nC");
    assert_eq!(script_section(&content, &chars("plain")).ok(), Some((0, content.len())));
    assert_eq!(script_section(&content, &chars("two@file")).ok(), Some((11, 19)));
    assert_eq!(script_section(&content, &chars("three@x@file")).err(), Some(ScriptError::SectionNotFound));
    assert_eq!(script_section(&content, &chars("three@file")).ok(), Some((19, content.len())));
}

#[test]
fn the_body_begins_after_comments_and_headers() {
    let section = chars("@name\n  -- comment\n--[==[\nheader ]] still\n]==]\n\nlocal x = 1\n");
    let body = script_body_start(&section).ok().unwrap();
    assert_eq!(text(&section[body..]), "local x = 1\n");
    assert_eq!(script_body_start(&chars("--[[ open")).err(), Some(ScriptError::UnterminatedComment));
    assert_eq!(script_body_start(&chars("-- only")).ok(), Some(7));
}

#[test]
fn dialog_values_end_at_a_semicolon_outside_strings_and_brackets() {
    assert_eq!(dialog_value_end(&chars("{1;2};rest")).ok(), Some(5));
    assert_eq!(dialog_value_end(&chars("\"a;\\\"b\";x")).ok(), Some(7));
    assert_eq!(dialog_value_end(&chars("[=[;]=];")).ok(), Some(7));
    assert_eq!(dialog_value_end(&chars("f(1)")).ok(), Some(4));
    assert_eq!(dialog_value_end(&chars("(]")).err(), Some(ScriptError::MismatchedBrackets));
    assert_eq!(dialog_value_end(&chars("{1")).err(), Some(ScriptError::UnclosedBrackets));
    assert_eq!(dialog_value_end(&chars("'abc")).err(), Some(ScriptError::UnterminatedString));
    assert_eq!(dialog_value_end(&chars("[[abc")).err(), Some(ScriptError::UnterminatedLongString));
}

#[test]
fn dialogs_expand_once() {
    let mut content = chars("--dialog:Size,size=10;Color/col,local color=0xffffff\nreturn\n");
    let names = expand_dialog(&mut content).ok().unwrap();
    assert_eq!(names, vec![chars("size"), chars("color")]);
    assert_eq!(
        text(&content),
        "--rikky_modoki:dialog_info=size;color\n--value@size:Size,10\n--color@color:Color,0xffffff\nreturn\n"
    );
    let before = content.clone();
    assert_eq!(expand_dialog(&mut content).ok().unwrap(), names);
    assert_eq!(content, before);
}

#[test]
fn dialog_labels_that_clash_are_prefixed() {
    let mut content = chars("--track0:Size,0,100,1\n--dialog:Size,a=1;Size,b=2;Other,c=3\n");
    expand_dialog(&mut content).ok().unwrap();
    assert_eq!(
        text(&content),
        "--track0:Size,0,100,1\n--rikky_modoki:dialog_info=a;b;c\n--value@a:dialog::Size,1\n--value@b:dialog::dialog::Size,2\n--value@c:Other,3\n"
    );
}

#[test]
fn dialog_errors_are_reported() {
    assert_eq!(expand_dialog(&mut chars("return")).err(), Some(ScriptError::DialogNotFound));
    assert_eq!(expand_dialog(&mut chars("--dialog:  ")).err(), Some(ScriptError::EmptyDialog));
    assert_eq!(expand_dialog(&mut chars("--dialog:x")).err(), Some(ScriptError::InvalidDialogItem));
    assert_eq!(expand_dialog(&mut chars("--dialog:x,y=")).err(), Some(ScriptError::MissingDefault));
    let many: Vec<String> = (0..17).map(|i| format!("L,v{i}=1")).collect();
    assert_eq!(expand_dialog(&mut chars(&format!("--dialog:{}", many.join(";")))).err(), Some(ScriptError::TooManyItems));
}

#[test]
fn group_parameters_are_declared_by_kind() {
    let v = chars("v");
    let line = |label: &str, default: &str, b: &NumericBounds| group_parameter_line(&v, &chars(label), &chars(default), b).map(|l| text(&l));
    assert_eq!(line("Size*0.1", " 5 ", &bounds(false, "0", "10", true)).ok(), Some("--track@v:v::Size,0,10,5,0.1".to_string()));
    assert_eq!(line("Name", "\"a\\nb\"", &bounds(true, "0", "0", false)).ok(), Some("--string@v:v::Name,a\\nb".to_string()));
    assert_eq!(line("Path*file", "\"x\"", &bounds(true, "0", "0", false)).ok(), Some("--file@v:v::Path".to_string()));
    assert_eq!(line("Color*color", "16777215", &bounds(true, "0", "0", false)).ok(), Some("--color@v:v::Color,16777215".to_string()));
    assert_eq!(line("Color*color", "nil", &bounds(true, "0", "0", false)).ok(), Some("--color@v:v::Color,nil".to_string()));
    assert_eq!(line("Flag", "true", &bounds(true, "0", "0", false)).ok(), Some("--check@v:v::Flag,true".to_string()));
    assert_eq!(line("Plain", "12", &bounds(true, "0", "0", false)).ok(), Some("--value@v:v::Plain,12".to_string()));
    assert_eq!(line("Color*color", "16777216", &bounds(true, "0", "0", false)).err(), Some(ScriptError::InvalidColor));
    assert_eq!(line("Color*color", "red", &bounds(true, "0", "0", false)).err(), Some(ScriptError::InvalidNumber));
    assert_eq!(line("Color*color", "1", &bounds(false, "0", "1", true)).err(), Some(ScriptError::ColorBounds));
    assert_eq!(line("", "1", &bounds(true, "0", "0", true)).err(), Some(ScriptError::MultilineParameter));
    assert_eq!(line("a,b", "1", &bounds(true, "0", "0", true)).err(), Some(ScriptError::MultilineParameter));
    assert_eq!(line("a", "1\n", &bounds(true, "0", "0", true)).err(), Some(ScriptError::MultilineParameter));
    let unparsed = NumericBounds { parsed: false, ..bounds(true, "0", "0", true) };
    assert_eq!(line("a", "1", &unparsed).err(), Some(ScriptError::InvalidNumber));
    let disordered = NumericBounds { valid: false, ..bounds(false, "2", "1", true) };
    assert_eq!(line("a", "1", &disordered).err(), Some(ScriptError::InvalidRange));
    assert_eq!(line("x*bad", "1", &bounds(true, "0", "0", true)).err(), Some(ScriptError::UnknownSuffix));
    assert_eq!(line("*1", "1", &bounds(true, "0", "0", true)).err(), Some(ScriptError::EmptyLabel));
    assert_eq!(line("a", "  ", &bounds(true, "0", "0", true)).err(), Some(ScriptError::EmptyDefault));
    assert_eq!(line("a", "20", &bounds(false, "0", "10", false)).err(), Some(ScriptError::DefaultOutOfRange));
    assert_eq!(line("a", "1", &bounds(false, "0", "10", true)).map(|_| ()).ok(), Some(()));
    assert_eq!(line("s", "x", &bounds(true, "0", "0", true)).ok(), Some("--value@v:v::s,x".to_string()));
    assert_eq!(line("s*font", "x", &bounds(true, "0", "0", true)).err(), Some(ScriptError::StringBounds));
    assert_eq!(line("s", "\"\\q\"", &bounds(true, "0", "0", true)).err(), Some(ScriptError::String(StringError::InvalidEscape)));
}

#[test]
fn a_value_parameter_becomes_a_group_once() {
    let mut content = chars("--dialog:Size,size=10\nreturn size\n");
    let entries: Vec<Vec<char>> = ["W", "1", "0", "10", "H*0.1", "2", "0", "5"].iter().map(|s| chars(s)).collect();
    let all = vec![bounds(false, "0", "10", true), bounds(false, "0", "5", true)];
    assert_eq!(expand_parameter_group(&mut content, &chars("x"), 1, &entries, &all).ok(), Some(true));
    assert_eq!(
        text(&content),
        "--rikky_modoki:dialog_info=size\n--rikky_modoki:parameter=size\n--group:Size,false\n\
--track@__rikky_parameter_size_1:__rikky_parameter_size_1::W,0,10,1,1\n\
--track@__rikky_parameter_size_2:__rikky_parameter_size_2::H,0,5,2,0.1\n--group\n\
local size = {__rikky_parameter_size_1, __rikky_parameter_size_2}\nreturn size\n"
    );
    let before = content.clone();
    assert_eq!(expand_parameter_group(&mut content, &chars("x"), 1, &entries, &all).ok(), Some(false));
    assert_eq!(content, before);
    assert_eq!(expand_parameter_group(&mut content, &chars("x"), 2, &entries, &all).err(), Some(ScriptError::IndexOutOfBounds));
    assert_eq!(expand_parameter_group(&mut content, &chars("x"), 1, &entries[..3].to_vec(), &all).err(), Some(ScriptError::InvalidGroup));
    let mut versioned = chars("--rikky_modoki:replacement_version=5\n");
    versioned.extend(before.iter());
    assert_eq!(group_needs_rewrite(&versioned, &chars("x"), 1).ok(), Some(false));
    assert_eq!(group_needs_rewrite(&chars("--dialog:S,s=1\n"), &chars("x"), 1).ok(), Some(false));
    assert_eq!(group_needs_rewrite(&chars("--rikky_modoki:replacement_version=5\n--dialog:S,s=1\n"), &chars("x"), 1).ok(), Some(true));
    assert_eq!(group_needs_rewrite(&chars("--rikky_modoki:replacement_version=4\n"), &chars("x"), 1).ok(), Some(true));
}

#[test]
fn a_parameter_takes_another_type() {
    let content = chars("--dialog:Col,c=0\n");
    let once = retype_parameter(&content, &chars("x"), &chars("color"), 1).ok().unwrap().unwrap();
    assert_eq!(text(&once), "--rikky_modoki:dialog_info=c\n--color@c:Col,0\n");
    assert!(retype_parameter(&once, &chars("x"), &chars("color"), 1).ok().unwrap().is_none());
    assert_eq!(retype_parameter(&once, &chars("x"), &chars("file"), 1).err(), Some(ScriptError::ParameterNotFound));
    assert_eq!(retype_parameter(&content, &chars("x"), &chars("color"), 0).err(), Some(ScriptError::IndexOutOfBounds));
    assert_eq!(text(&replace_all(&chars("abab"), &chars("ab"), &chars("x"))), "xx");
}

#[test]
fn a_parameter_becomes_a_selection() {
    let content = chars("--dialog:Mode,mode=\"b\"\n");
    let choices = vec![chars("a"), chars("b")];
    let once = select_parameter(&content, &chars("x"), 1, &choices).ok().unwrap().unwrap();
    assert_eq!(
        text(&once),
        "--rikky_modoki:dialog_info=mode\n--select@tmp_mode:Mode=2,a=1,b=2\nlocal mode = ({ \"a\",\"b\" })[tmp_mode] or \"b\"\n"
    );
    assert!(select_parameter(&once, &chars("x"), 1, &choices).ok().unwrap().is_none());
    let numeric = chars("--dialog:*Level,level=3\n");
    let chosen = select_parameter(&numeric, &chars("x"), 1, &choices).ok().unwrap().unwrap();
    assert_eq!(text(&chosen), "--rikky_modoki:dialog_info=level\n--select@tmp_level:*Level=3,a=1,b=2\nlocal level = tmp_level\n");
    let priced = select_parameter(&content, &chars("x"), 1, &vec![chars("$1"), chars("$$")]).ok().unwrap().unwrap();
    assert_eq!(
        text(&priced),
        "--rikky_modoki:dialog_info=mode\n--select@tmp_mode:Mode=1,Mode=1,$=2\nlocal mode = ({ \"Mode\",\"$\" })[tmp_mode] or \"b\"\n"
    );
}

#[test]
fn replacements_fill_in_capture_references() {
    let content = chars("--dialog:Mode,mode=\"b\"\n");
    let choices = vec![chars("${2}x"), chars("$9"), chars("$name"), chars("$")];
    let out = select_parameter(&content, &chars("x"), 1, &choices).ok().unwrap().unwrap();
    assert_eq!(
        text(&out),
        "--rikky_modoki:dialog_info=mode\n--select@tmp_mode:Mode=1,\"b\"x=1,=2,=3,$=4\nlocal mode = ({ \"\"b\"x\",\"\",\"\",\"$\" })[tmp_mode] or \"b\"\n"
    );
}

#[test]
fn each_parameter_is_rewritten_once() {
    let mut replaced = ReplacedParameters::new();
    let mut runs = 0;
    let first: Result<(), ()> = replace_parameter_with_check(&mut replaced, "a", "anm2", 1, || {
        runs += 1;
        Err(())
    });
    assert!(first.is_err());
    let second: Result<(), ()> = replace_parameter_with_check(&mut replaced, "a", "anm2", 1, || {
        runs += 1;
        Ok(())
    });
    assert!(second.is_ok());
    let third: Result<(), ()> = replace_parameter_with_check(&mut replaced, "a", "anm2", 1, || {
        runs += 1;
        Ok(())
    });
    assert!(third.is_ok());
    assert_eq!(runs, 2);
}

#[test]
fn a_group_that_needs_no_rewrite_is_checked_once() {
    let mut replaced = ReplacedParameters::new();
    let mut reads = 0;
    let versioned = "--rikky_modoki:replacement_version=5\n--dialog:S,s=1\n--rikky_modoki:parameter=s\n";
    let first: Result<bool, GroupCheckError<()>> = group_parameter_needs_rewrite(&mut replaced, "x", "anm2", 1, || {
        reads += 1;
        Ok(versioned.to_string())
    });
    assert!(matches!(first, Ok(false)));
    let second: Result<bool, GroupCheckError<()>> = group_parameter_needs_rewrite(&mut replaced, "x", "anm2", 1, || {
        reads += 1;
        Ok(String::new())
    });
    assert!(matches!(second, Ok(false)));
    assert_eq!(reads, 1);
}

#[test]
fn a_group_that_needs_a_rewrite_is_asked_again() {
    let mut replaced = ReplacedParameters::new();
    let stale = "--rikky_modoki:replacement_version=4\n";
    for _ in 0..2 {
        let r: Result<bool, GroupCheckError<()>> =
            group_parameter_needs_rewrite(&mut replaced, "x", "anm2", 2, || Ok(stale.to_string()));
        assert!(matches!(r, Ok(true)));
    }
    let failed: Result<bool, GroupCheckError<u8>> = group_parameter_needs_rewrite(&mut replaced, "x", "anm2", 2, || Err(7));
    assert!(matches!(failed, Err(GroupCheckError::Read(7))));
    let broken: Result<bool, GroupCheckError<()>> = group_parameter_needs_rewrite(&mut replaced, "x", "anm2", 1, || {
        Ok("--rikky_modoki:replacement_version=5\n--dialog:S,s=1\n".to_string())
    });
    assert!(matches!(broken, Ok(true)));
    let out_of_range: Result<bool, GroupCheckError<()>> = group_parameter_needs_rewrite(&mut replaced, "x", "anm2", 3, || {
        Ok("--rikky_modoki:replacement_version=5\n--dialog:S,s=1\n".to_string())
    });
    assert!(matches!(out_of_range, Err(GroupCheckError::Script(ScriptError::IndexOutOfBounds))));
}
