//! The markers that a rewritten script carries: the version of the rewrite
//! rules, the hash of the original, and the switch that stops rewrites.
use vstd::prelude::*;
use crate::lines::{
    no_newline,
    lemma_line_end_is_first, lemma_marker_shift,
    find_marker, has_prefix_at, has_prefix_at_exec, is_line_start, lemma_line_end_bounds, line_end,
    line_end_exec, marker_line, marker_value, marker_value_exec, no_marker_in,
};
use crate::number::{parse_unsigned, parse_unsigned_exec};
use crate::script::ScriptError;
use crate::text::{chars_of, push_chars, push_str, same_chars, string_from_chars};
use crate::encoding::{decode_script, script_hash, spec_decode_script, spec_script_hash};

verus! {

broadcast use crate::lines::lemma_marker_line_basics;

/// The version of the rewrite rules; a script rewritten under an older one
/// is rewritten again from its original.
pub const REPLACEMENT_VERSION: u32 = 5;

pub open spec fn version_key() -> Seq<char> {
    "--rikky_modoki:replacement_version="@
}

pub open spec fn hash_key() -> Seq<char> {
    "--rikky_modoki:original_hash="@
}

pub open spec fn disable_key() -> Seq<char> {
    "--rikky_modoki:disable_further_replacement="@
}

pub open spec fn dialog_info_key() -> Seq<char> {
    "--rikky_modoki:dialog_info="@
}

pub open spec fn parameter_key() -> Seq<char> {
    "--rikky_modoki:parameter="@
}

/// A line that begins with `key`, whatever follows.
pub open spec fn prefix_line(s: Seq<char>, p: int, key: Seq<char>) -> bool {
    is_line_start(s, p) && has_prefix_at(s, p, key)
}

pub open spec fn has_prefix_line(s: Seq<char>, key: Seq<char>) -> bool {
    exists|p: int| prefix_line(s, p, key)
}

pub open spec fn has_marker(s: Seq<char>, key: Seq<char>) -> bool {
    exists|p: int| marker_line(s, p, key)
}

/// The first marker with the given key.
pub open spec fn first_marker(s: Seq<char>, key: Seq<char>) -> int {
    choose|p: int| marker_line(s, p, key) && no_marker_in(s, key, 0, p)
}

/// A second marker besides the first one.
pub open spec fn second_marker(s: Seq<char>, key: Seq<char>) -> bool {
    exists|q: int| marker_line(s, q, key) && q != first_marker(s, key)
}

/// The version of the rules that rewrote the script, if any: the value of
/// its version marker, or 0 for a script that carries the markers of a
/// rewrite but no version.
#[verifier::opaque]
pub open spec fn spec_replacement_version(s: Seq<char>) -> Result<Option<u32>, ScriptError> {
    if has_marker(s, version_key()) {
        match parse_unsigned(marker_value(s, first_marker(s, version_key()), version_key()), u32::MAX as nat) {
            None => Err(ScriptError::InvalidVersion),
            Some(v) => if second_marker(s, version_key()) {
                Err(ScriptError::DuplicateVersion)
            } else {
                Ok(Some(v as u32))
            },
        }
    } else if has_prefix_line(s, dialog_info_key()) || has_prefix_line(s, parameter_key()) {
        Ok(Some(0))
    } else {
        Ok(None)
    }
}

pub open spec fn is_lower_hex(c: char) -> bool {
    ('0' <= c <= '9') || ('a' <= c <= 'f')
}

/// The hash of the original that the script records, if any.
#[verifier::opaque]
pub open spec fn spec_original_hash(s: Seq<char>) -> Result<Option<Seq<char>>, ScriptError> {
    if !has_marker(s, hash_key()) {
        Ok(None)
    } else if second_marker(s, hash_key()) {
        Err(ScriptError::DuplicateHash)
    } else {
        let v = marker_value(s, first_marker(s, hash_key()), hash_key());
        if v.len() == 16 && forall|i: int| 0 <= i < 16 ==> #[trigger] is_lower_hex(v[i]) {
            Ok(Some(v))
        } else {
            Err(ScriptError::InvalidHash)
        }
    }
}

/// Whether the script carries a disable marker with one of the two values.
pub open spec fn has_marker_valued(s: Seq<char>, key: Seq<char>, a: Seq<char>, b: Seq<char>) -> bool {
    exists|p: int| marker_line(s, p, key) && (marker_value(s, p, key) == a || marker_value(s, p, key) == b)
}

/// The owner of the script turned further rewrites off.
pub open spec fn spec_further_replacement_disabled(s: Seq<char>) -> bool {
    has_marker_valued(s, disable_key(), "yes"@, "yes"@)
}

pub proof fn lemma_first_marker(s: Seq<char>, key: Seq<char>, p: int)
    requires
        marker_line(s, p, key),
        no_marker_in(s, key, 0, p),
    ensures
        first_marker(s, key) == p,
{
    reveal(marker_line);
    let f = first_marker(s, key);
    assert(marker_line(s, f, key) && no_marker_in(s, key, 0, f));
    if f < p {
        assert(!marker_line(s, f, key));
    } else if f > p {
        assert(!marker_line(s, p, key));
    }
}

/// The start of the line after the one at `p`, if there is one.
pub fn next_line_start(s: &Vec<char>, p: usize) -> (r: Option<usize>)
    requires
        p <= s@.len(),
    ensures
        match r {
            Some(q) => q == line_end(s@, p as int) + 1 && is_line_start(s@, q as int),
            None => line_end(s@, p as int) == s@.len(),
        },
{
    let e = line_end_exec(s, p);
    proof {
        lemma_line_end_bounds(s@, p as int);
    }
    if e < s.len() {
        Some(e + 1)
    } else {
        None
    }
}

/// Whether a marker with the given key stands after the line at `p`.
fn marker_after(s: &Vec<char>, key: &Vec<char>, p: usize) -> (r: bool)
    requires
        marker_line(s@, p as int, key@),
        no_marker_in(s@, key@, 0, p as int),
    ensures
        r == (exists|q: int| marker_line(s@, q, key@) && q != p),
{
    proof {
        reveal(marker_line);
    }
    proof {
        lemma_line_end_bounds(s@, p as int);
    }
    match next_line_start(s, p) {
        Some(q) => {
            let found = find_marker(s, key, q);
            proof {
                assert forall|x: int| p < x < q implies !#[trigger] marker_line(s@, x, key@) by {
                    assert(s@[x - 1] != '\n');
                };
            }
            match found {
                Some(x) => {
                    assert(marker_line(s@, x as int, key@) && x != p);
                    true
                },
                None => {
                    assert forall|x: int| marker_line(s@, x, key@) implies x == p by {
                        if x > p {
                            assert(x >= q);
                        }
                    };
                    false
                },
            }
        },
        None => {
            assert forall|x: int| marker_line(s@, x, key@) implies x == p by {
                if x > p {
                    assert(s@[x - 1] != '\n');
                }
            };
            false
        },
    }
}

/// The first line at or after `from` that begins with `key`.
pub fn find_prefix_line(s: &Vec<char>, key: &Vec<char>, from: usize) -> (r: Option<usize>)
    requires
        is_line_start(s@, from as int),
    ensures
        match r {
            Some(p) => from <= p && prefix_line(s@, p as int, key@)
                && forall|q: int| from <= q < p ==> !#[trigger] prefix_line(s@, q, key@),
            None => forall|q: int| from <= q ==> !#[trigger] prefix_line(s@, q, key@),
        },
{
    let mut p = from;
    loop
        invariant
            from <= p <= s@.len(),
            is_line_start(s@, p as int),
            forall|q: int| from <= q < p ==> !#[trigger] prefix_line(s@, q, key@),
        decreases s@.len() - p,
    {
        if has_prefix_at_exec(s, p, key) {
            return Some(p);
        }
        let e = line_end_exec(s, p);
        proof {
            lemma_line_end_bounds(s@, p as int);
            assert forall|q: int| from <= q < e + 1 implies !#[trigger] prefix_line(s@, q, key@) by {
                if p < q <= e {
                    assert(s@[q - 1] != '\n' || q - 1 == e);
                }
            };
        }
        if e >= s.len() {
            proof {
                assert forall|q: int| from <= q implies !#[trigger] prefix_line(s@, q, key@) by {
                    if p < q && q <= s@.len() {
                        assert(q - 1 < e);
                    }
                };
            }
            return None;
        }
        p = e + 1;
    }
}

/// The version of the rules that rewrote the script, if any.
pub fn replacement_version(s: &Vec<char>) -> (r: Result<Option<u32>, ScriptError>)
    ensures
        r == spec_replacement_version(s@),
{
    proof {
        reveal(spec_replacement_version);
    }
    let key = chars_of("--rikky_modoki:replacement_version=");
    match find_marker(s, &key, 0) {
        Some(p) => {
            proof {
                lemma_first_marker(s@, key@, p as int);
            }
            let value = marker_value_exec(s, p, &key);
            match parse_unsigned_exec(&value, 0xffff_ffff) {
                None => Err(ScriptError::InvalidVersion),
                Some(v) => {
                    proof {
                                            }
                    if marker_after(s, &key, p) {
                        Err(ScriptError::DuplicateVersion)
                    } else {
                        Ok(Some(v as u32))
                    }
                },
            }
        },
        None => {
            let info = chars_of("--rikky_modoki:dialog_info=");
            let parameter = chars_of("--rikky_modoki:parameter=");
            let a = find_prefix_line(s, &info, 0);
            let b = find_prefix_line(s, &parameter, 0);
            if a.is_some() || b.is_some() {
                Ok(Some(0))
            } else {
                Ok(None)
            }
        },
    }
}

/// The hash of the original that the script records, if any.
pub fn original_hash(s: &Vec<char>) -> (r: Result<Option<Vec<char>>, ScriptError>)
    ensures
        match (spec_original_hash(s@), r) {
            (Ok(None), Ok(None)) => true,
            (Ok(Some(a)), Ok(Some(b))) => b@ == a,
            (Err(a), Err(b)) => a == b,
            _ => false,
        },
{
    proof {
        reveal(spec_original_hash);
    }
    let key = chars_of("--rikky_modoki:original_hash=");
    match find_marker(s, &key, 0) {
        None => Ok(None),
        Some(p) => {
            proof {
                lemma_first_marker(s@, key@, p as int);
                            }
            if marker_after(s, &key, p) {
                return Err(ScriptError::DuplicateHash);
            }
            let value = marker_value_exec(s, p, &key);
            if value.len() != 16 {
                return Err(ScriptError::InvalidHash);
            }
            let mut i: usize = 0;
            while i < 16
                invariant
                    value@.len() == 16,
                    i <= 16,
                    value@ == marker_value(s@, first_marker(s@, hash_key()), hash_key()),
                    has_marker(s@, hash_key()),
                    !second_marker(s@, hash_key()),
                    forall|j: int| 0 <= j < i ==> #[trigger] is_lower_hex(value@[j]),
                decreases 16 - i,
            {
                let c = value[i];
                if !(('0' <= c && c <= '9') || ('a' <= c && c <= 'f')) {
                    proof {
                        reveal(spec_original_hash);
                    }
                    assert(!is_lower_hex(value@[i as int]));
                    return Err(ScriptError::InvalidHash);
                }
                i = i + 1;
            }
            Ok(Some(value))
        },
    }
}

/// Whether a marker with the key has the value `a` or `b`.
pub fn has_marker_valued_exec(s: &Vec<char>, key: &Vec<char>, a: &Vec<char>, b: &Vec<char>) -> (r: bool)
    ensures
        r == has_marker_valued(s@, key@, a@, b@),
{
    let mut from: usize = 0;
    loop
        invariant
            from <= s@.len(),
            is_line_start(s@, from as int),
            forall|p: int| 0 <= p < from && #[trigger] marker_line(s@, p, key@) ==>
                marker_value(s@, p, key@) != a@ && marker_value(s@, p, key@) != b@,
        decreases s@.len() - from,
    {
        match find_marker(s, key, from) {
            None => {
                assert forall|p: int| marker_line(s@, p, key@) implies
                    marker_value(s@, p, key@) != a@ && marker_value(s@, p, key@) != b@ by {
                    if p >= from {
                        assert(!marker_line(s@, p, key@));
                    }
                };
                return false;
            },
            Some(p) => {
                let v = marker_value_exec(s, p, key);
                if crate::text::same_chars(&v, a) || crate::text::same_chars(&v, b) {
                    return true;
                }
                proof {
                    lemma_line_end_bounds(s@, p as int);
                }
                match next_line_start(s, p) {
                    None => {
                        assert forall|x: int| marker_line(s@, x, key@) implies
                            marker_value(s@, x, key@) != a@ && marker_value(s@, x, key@) != b@ by {
                            if x > p {
                                assert(s@[x - 1] != '\n');
                            }
                        };
                        return false;
                    },
                    Some(q) => {
                        assert forall|x: int| 0 <= x < q && #[trigger] marker_line(s@, x, key@) implies
                            marker_value(s@, x, key@) != a@ && marker_value(s@, x, key@) != b@ by {
                            if p < x {
                                assert(s@[x - 1] != '\n');
                            }
                        };
                        from = q;
                    },
                }
            },
        }
    }
}

/// Whether the owner of the script turned further rewrites off.
pub fn further_replacement_disabled(s: &Vec<char>) -> (r: bool)
    ensures
        r == spec_further_replacement_disabled(s@),
{
    let key = chars_of("--rikky_modoki:disable_further_replacement=");
    let yes = chars_of("yes");
    has_marker_valued_exec(s, &key, &yes, &yes)
}

/// The text holds a `\r\n` pair.
pub open spec fn crlf_at(s: Seq<char>, i: int) -> bool {
    0 <= i && i + 1 < s.len() && s[i] == '\r' && s[i + 1] == '\n'
}

pub open spec fn has_crlf(s: Seq<char>) -> bool {
    exists|i: int| #[trigger] crlf_at(s, i)
}

/// The line break that new lines in the text use: `\r\n` where the text
/// holds one already, else `\n`.
pub open spec fn newline_of(s: Seq<char>) -> Seq<char> {
    if has_crlf(s) {
        "\r\n"@
    } else {
        "\n"@
    }
}

pub fn newline_exec(s: &Vec<char>) -> (r: Vec<char>)
    ensures
        r@ == newline_of(s@),
{
    let n = s.len();
    let mut i: usize = 0;
    while i < n && n - i > 1
        invariant
            n == s@.len(),
            i <= n,
            forall|j: int| 0 <= j < i ==> !#[trigger] crlf_at(s@, j),
        decreases s@.len() - i,
    {
        if s[i] == '\r' && s[i + 1] == '\n' {
            assert(crlf_at(s@, i as int));
            return chars_of("\r\n");
        }
        i = i + 1;
    }
    assert forall|j: int| !#[trigger] crlf_at(s@, j) by {
        if 0 <= j && j + 1 < s@.len() {
            assert(j < i);
        }
    };
    chars_of("\n")
}

pub open spec fn version_line() -> Seq<char> {
    "--rikky_modoki:replacement_version=5"@
}

/// The script marked with the current rule version: unchanged where it
/// carries that version or a later one; refused where it carries an older
/// version marker.
pub open spec fn spec_versioned_script(s: Seq<char>) -> Result<Seq<char>, ScriptError> {
    match spec_replacement_version(s) {
        Err(e) => Err(e),
        Ok(Some(v)) if v >= REPLACEMENT_VERSION => Ok(s),
        _ => if has_prefix_line(s, version_key()) {
            Err(ScriptError::OldVersionPresent)
        } else {
            Ok(version_line() + newline_of(s) + s)
        },
    }
}

pub fn versioned_script(s: &Vec<char>) -> (r: Result<Vec<char>, ScriptError>)
    ensures
        match (spec_versioned_script(s@), r) {
            (Ok(a), Ok(b)) => b@ == a,
            (Err(a), Err(b)) => a == b,
            _ => false,
        },
{
    match replacement_version(s) {
        Err(e) => return Err(e),
        Ok(Some(v)) => {
            if v >= REPLACEMENT_VERSION {
                return Ok(s.clone());
            }
        },
        Ok(None) => {},
    }
    let key = chars_of("--rikky_modoki:replacement_version=");
    if find_prefix_line(s, &key, 0).is_some() {
        return Err(ScriptError::OldVersionPresent);
    }
    let mut out = chars_of("--rikky_modoki:replacement_version=5");
    let mut nl = newline_exec(s);
    out.append(&mut nl);
    let mut rest = s.clone();
    out.append(&mut rest);
    Ok(out)
}

/// The line `--rikky_modoki:replacement_version=5` and the text's line
/// break, put in front of it: its version marker is the first line, and the
/// text's own lines follow unchanged.
proof fn lemma_version_header(s: Seq<char>)
    requires
        !has_prefix_line(s, version_key()),
    ensures
        ({
            let t = version_line() + newline_of(s) + s;
            &&& marker_line(t, 0, version_key())
            &&& first_marker(t, version_key()) == 0
            &&& marker_value(t, 0, version_key()) == seq!['5']
            &&& !second_marker(t, version_key())
        }),
{
    reveal(marker_line);
    reveal_strlit("--rikky_modoki:replacement_version=5");
    reveal_strlit("--rikky_modoki:replacement_version=");
    reveal_strlit("\r\n");
    reveal_strlit("\n");
    let key = version_key();
    let h = version_line() + newline_of(s);
    let t = h + s;
    assert(version_line().len() == 36);
    assert(key.len() == 35);
    assert forall|i: int| 0 <= i < 36 implies #[trigger] t[i] == version_line()[i] by {};
    assert(h.last() == '\n');
    let e = h.len() - 1;
    assert(t[e] == '\n');
    assert forall|i: int| 0 <= i < e implies t[i] != '\n' by {
        if i < 36 {
            assert(version_line()[i] != '\n');
        } else {
            assert(t[i] == '\r');
        }
    };
    lemma_line_end_is_first(t, 0, e);
    assert(t.subrange(0, 35) =~= key);
    assert(marker_line(t, 0, key));
    assert(marker_value(t, 0, key) =~= seq!['5']);
    lemma_first_marker(t, key, 0);
        assert forall|q: int| marker_line(t, q, key) implies q == 0 by {
        if 0 < q < h.len() {
            assert(t[q - 1] != '\n');
        } else if q >= h.len() {
            lemma_marker_shift(h, s, key, q - h.len());
            assert(prefix_line(s, q - h.len(), key));
        }
    };
}

/// Marking a script with the rule version twice marks it once: the marked
/// script carries the current version, and marking it again leaves it as
/// it is.
pub proof fn lemma_versioned_script_idempotent(s: Seq<char>)
    requires
        spec_versioned_script(s) is Ok,
    ensures
        ({
            let t = spec_versioned_script(s)->Ok_0;
            &&& spec_replacement_version(t) matches Ok(Some(v)) && v >= REPLACEMENT_VERSION
            &&& spec_versioned_script(t) == Ok::<Seq<char>, ScriptError>(t)
        }),
{
    reveal(spec_replacement_version);
    match spec_replacement_version(s) {
        Ok(Some(v)) if v >= REPLACEMENT_VERSION => {},
        _ => {
            let t = version_line() + newline_of(s) + s;
            lemma_version_header(s);
            let d = seq!['5'];
            assert(crate::number::digits_value(d.drop_last()) == 0);
            assert(crate::number::unsigned_digits(d) == d);
            assert(parse_unsigned(d, u32::MAX as nat) == Some(5nat));
            assert(has_marker(t, version_key()));
        },
    }
}

/// What to do with a script before its parameters are rewritten.
#[derive(Clone, Copy, Debug, PartialEq, Eq, Structural)]
pub enum ReplacementPlan {
    /// The owner turned rewrites off: leave the script alone.
    Disabled,
    /// Rewrite the script as it is.
    Current,
    /// An older version of the rules rewrote it: rewrite its original.
    Restore,
}

pub open spec fn spec_replacement_plan(s: Seq<char>) -> Result<ReplacementPlan, ScriptError> {
    if spec_further_replacement_disabled(s) {
        Ok(ReplacementPlan::Disabled)
    } else {
        match spec_replacement_version(s) {
            Err(e) => Err(e),
            Ok(Some(v)) if v < REPLACEMENT_VERSION => Ok(ReplacementPlan::Restore),
            _ => Ok(ReplacementPlan::Current),
        }
    }
}

/// Decides what to do with a script before its parameters are rewritten.
pub fn replacement_plan(content: &str) -> (r: Result<ReplacementPlan, ScriptError>)
    ensures
        r == spec_replacement_plan(content@),
{
    let s = chars_of(content);
    if further_replacement_disabled(&s) {
        return Ok(ReplacementPlan::Disabled);
    }
    match replacement_version(&s) {
        Err(e) => Err(e),
        Ok(Some(v)) => if v < REPLACEMENT_VERSION {
            Ok(ReplacementPlan::Restore)
        } else {
            Ok(ReplacementPlan::Current)
        },
        Ok(None) => Ok(ReplacementPlan::Current),
    }
}

/// Where the original of a script is.
#[derive(PartialEq, Eq)]
pub enum BackupSource {
    /// The script was never rewritten: it is its own original.
    Script,
    /// In the backup directory, under this hash.
    Hashed(String),
    /// Beside the script, with `.bak` added: scripts rewritten before the
    /// hash was recorded.
    Legacy,
}

pub enum SpecBackupSource {
    Script,
    Hashed(Seq<char>),
    Legacy,
}

pub open spec fn spec_backup_source(s: Seq<char>) -> Result<SpecBackupSource, ScriptError> {
    match spec_original_hash(s) {
        Err(e) => Err(e),
        Ok(hash) => match spec_replacement_version(s) {
            Err(e) => Err(e),
            Ok(version) => match hash {
                Some(h) => Ok(SpecBackupSource::Hashed(h)),
                None => match version {
                    None => Ok(SpecBackupSource::Script),
                    Some(v) => if v < 3 {
                        Ok(SpecBackupSource::Legacy)
                    } else {
                        Err(ScriptError::MissingOriginalHash)
                    },
                },
            },
        },
    }
}

pub open spec fn source_matches(a: SpecBackupSource, b: BackupSource) -> bool {
    match (a, b) {
        (SpecBackupSource::Script, BackupSource::Script) => true,
        (SpecBackupSource::Hashed(x), BackupSource::Hashed(y)) => y@ == x,
        (SpecBackupSource::Legacy, BackupSource::Legacy) => true,
        _ => false,
    }
}

/// Where the original of a script is.
pub fn backup_source(content: &str) -> (r: Result<BackupSource, ScriptError>)
    ensures
        match (spec_backup_source(content@), r) {
            (Ok(a), Ok(b)) => source_matches(a, b),
            (Err(a), Err(b)) => a == b,
            _ => false,
        },
{
    let s = chars_of(content);
    let hash = match original_hash(&s) {
        Err(e) => return Err(e),
        Ok(h) => h,
    };
    let version = match replacement_version(&s) {
        Err(e) => return Err(e),
        Ok(v) => v,
    };
    match hash {
        Some(h) => Ok(BackupSource::Hashed(string_from_chars(h))),
        None => match version {
            None => Ok(BackupSource::Script),
            Some(v) => if v < 3 {
                Ok(BackupSource::Legacy)
            } else {
                Err(ScriptError::MissingOriginalHash)
            },
        },
    }
}

/// A backup is the original of a script: its hash is the recorded one,
/// where one was recorded, it decodes, and it carries no rewrite markers.
pub open spec fn spec_check_backup(bytes: Seq<u8>, hash: Option<Seq<char>>) -> Result<(), ScriptError> {
    if hash matches Some(h) && spec_script_hash(bytes) != h {
        Err(ScriptError::BackupHashMismatch)
    } else {
        match spec_decode_script(bytes) {
            Err(e) => Err(e),
            Ok(restored) => match spec_replacement_version(restored) {
                Err(e) => Err(e),
                Ok(Some(_)) => Err(ScriptError::BackupReplaced),
                Ok(None) => match spec_original_hash(restored) {
                    Err(e) => Err(e),
                    Ok(Some(_)) => Err(ScriptError::BackupReplaced),
                    Ok(None) => Ok(()),
                },
            },
        }
    }
}

/// Checks that backup bytes are the original of a script.
pub fn check_backup(bytes: &[u8], hash: Option<&str>) -> (r: Result<(), ScriptError>)
    requires
        bytes@.len() <= usize::MAX / 16,
    ensures
        r == spec_check_backup(bytes@, match hash {
            Some(h) => Some(h@),
            None => None,
        }),
{
    if let Some(h) = hash {
        let actual = script_hash(bytes);
        if !crate::text::str_equal(actual.as_str(), h) {
            return Err(ScriptError::BackupHashMismatch);
        }
    }
    let restored = match decode_script(bytes) {
        Err(e) => return Err(e),
        Ok(t) => chars_of(t.as_str()),
    };
    match replacement_version(&restored) {
        Err(e) => Err(e),
        Ok(Some(_)) => Err(ScriptError::BackupReplaced),
        Ok(None) => match original_hash(&restored) {
            Err(e) => Err(e),
            Ok(Some(_)) => Err(ScriptError::BackupReplaced),
            Ok(None) => Ok(()),
        },
    }
}

pub open spec fn alert_first() -> Seq<char> {
    "このスクリプトはrikky_modoki.aux2によって編集処理が行われました。"@
}

pub open spec fn alert_second() -> Seq<char> {
    "このスクリプトを編集すると、将来のrikky_modoki.aux2の変更で上書きされる可能性があります。"@
}

pub open spec fn alert_third() -> Seq<char> {
    "このスクリプトの編集を無効化するには、以下の行の「no」を「yes」に変更してください。"@
}

/// The comment block put in front of a rewritten script: a warning, and
/// the line with which its owner can stop further rewrites.
pub open spec fn alert_header(nl: Seq<char>) -> Seq<char> {
    "--"@ + nl + "-- "@ + alert_first() + nl + "-- "@ + alert_second() + nl + "-- "@ + alert_third() + nl
        + "--rikky_modoki:disable_further_replacement=no"@ + nl + "--"@ + nl
}

pub open spec fn spec_prepare_replaced_script(s: Seq<char>, hash: Seq<char>) -> Result<Seq<char>, ScriptError> {
    match spec_versioned_script(s) {
        Err(e) => Err(e),
        Ok(v) => {
            let nl = newline_of(v);
            match spec_original_hash(v) {
                Err(e) => Err(e),
                Ok(found) => if found matches Some(x) && x != hash {
                    Err(ScriptError::HashChanged)
                } else {
                    let w = if found is None {
                        hash_key() + hash + nl + v
                    } else {
                        v
                    };
                    if has_marker_valued(w, disable_key(), "yes"@, "no"@) {
                        Ok(w)
                    } else {
                        Ok(alert_header(nl) + w)
                    }
                },
            }
        },
    }
}

/// The text that replaces a script whose original has the given hash: it
/// carries the rule version, the hash, and (where the script has no switch
/// yet) the warning and the switch that stops further rewrites.
pub fn prepare_replaced_script(content: &str, hash: &str) -> (r: Result<String, ScriptError>)
    ensures
        match (spec_prepare_replaced_script(content@, hash@), r) {
            (Ok(a), Ok(b)) => b@ == a,
            (Err(a), Err(b)) => a == b,
            _ => false,
        },
{
    let s = chars_of(content);
    let h = chars_of(hash);
    let v = match versioned_script(&s) {
        Err(e) => return Err(e),
        Ok(v) => v,
    };
    let nl = newline_exec(&v);
    let found = match original_hash(&v) {
        Err(e) => return Err(e),
        Ok(f) => f,
    };
    let w = match found {
        Some(x) => {
            if !same_chars(&x, &h) {
                return Err(ScriptError::HashChanged);
            }
            v
        },
        None => {
            let mut w = chars_of("--rikky_modoki:original_hash=");
            let mut a = h.clone();
            w.append(&mut a);
            let mut b = nl.clone();
            w.append(&mut b);
            let mut c = v;
            w.append(&mut c);
            w
        },
    };
    let key = chars_of("--rikky_modoki:disable_further_replacement=");
    let yes = chars_of("yes");
    let no = chars_of("no");
    if has_marker_valued_exec(&w, &key, &yes, &no) {
        return Ok(string_from_chars(w));
    }
    let mut out: Vec<char> = Vec::new();
    push_str(&mut out, "--");
    push_chars(&mut out, &nl);
    push_str(&mut out, "-- ");
    push_str(&mut out, "このスクリプトはrikky_modoki.aux2によって編集処理が行われました。");
    push_chars(&mut out, &nl);
    push_str(&mut out, "-- ");
    push_str(&mut out, "このスクリプトを編集すると、将来のrikky_modoki.aux2の変更で上書きされる可能性があります。");
    push_chars(&mut out, &nl);
    push_str(&mut out, "-- ");
    push_str(&mut out, "このスクリプトの編集を無効化するには、以下の行の「no」を「yes」に変更してください。");
    push_chars(&mut out, &nl);
    push_str(&mut out, "--rikky_modoki:disable_further_replacement=no");
    push_chars(&mut out, &nl);
    push_str(&mut out, "--");
    push_chars(&mut out, &nl);
    assert(out@ =~= alert_header(nl@));
    push_chars(&mut out, &w);
    Ok(string_from_chars(out))
}

pub open spec fn starts_with(l: Seq<char>, key: Seq<char>) -> bool {
    key.len() <= l.len() && l.subrange(0, key.len() as int) == key
}

pub open spec fn no_cr(s: Seq<char>) -> bool {
    forall|i: int| 0 <= i < s.len() ==> s[i] != '\r'
}

pub open spec fn is_line_break(nl: Seq<char>) -> bool {
    nl == "\n"@ || nl == "\r\n"@
}

/// A line `l` and a line break put in front of `s`: the markers of `s`
/// move behind it unchanged, and the new first line is a marker exactly
/// when `l` begins with the key.
pub proof fn lemma_prepend_line(l: Seq<char>, nl: Seq<char>, s: Seq<char>, key: Seq<char>)
    requires
        no_newline(l),
        no_cr(l),
        no_newline(key),
        no_cr(key),
        is_line_break(nl),
    ensures
        ({
            let t = l + nl + s;
            let k = l.len() + nl.len();
            &&& forall|p: int| 0 < p < k ==> !is_line_start(t, p)
            &&& marker_line(t, 0, key) == starts_with(l, key)
            &&& prefix_line(t, 0, key) == starts_with(l, key)
            &&& starts_with(l, key) ==> marker_value(t, 0, key) == l.subrange(key.len() as int, l.len() as int)
            &&& forall|q: int| 0 <= q <= s.len() ==> #[trigger] marker_line(t, k + q, key) == marker_line(s, q, key)
            &&& forall|q: int| 0 <= q <= s.len() ==> #[trigger] prefix_line(t, k + q, key) == prefix_line(s, q, key)
            &&& forall|q: int| 0 <= q <= s.len() && marker_line(s, q, key) ==>
                #[trigger] marker_value(t, k + q, key) == marker_value(s, q, key)
        }),
{
    reveal(marker_line);
    reveal_strlit("\n");
    reveal_strlit("\r\n");
    let h = l + nl;
    let t = h + s;
    let k = h.len();
    assert(t == l + nl + s);
    assert(h.last() == '\n');
    assert forall|q: int| 0 <= q < k - 1 implies t[q] != '\n' by {
        if q < l.len() {
            assert(t[q] == l[q]);
        } else {
            assert(t[q] == '\r');
        }
    };
    assert(t[k - 1] == '\n');
    lemma_line_end_is_first(t, 0, k - 1);
    assert forall|p: int| 0 < p < k implies !is_line_start(t, p) by {
        assert(t[p - 1] != '\n');
    };
    if starts_with(l, key) {
        assert(t.subrange(0, key.len() as int) =~= l.subrange(0, key.len() as int));
        assert forall|q: int| key.len() <= q < line_end(t, 0) - 1 implies t[q] != '\r' by {
            assert(q < l.len());
            assert(t[q] == l[q]);
        };
        let e = k - 1;
        if e > key.len() && t[e - 1] == '\r' {
            assert(nl == "\r\n"@) by {
                if nl == "\n"@ {
                    assert(t[e - 1] == l[e - 1]);
                }
            };
            assert(t.subrange(key.len() as int, e - 1) =~= l.subrange(key.len() as int, l.len() as int));
        } else {
            if nl == "\r\n"@ {
                assert(t[e - 1] == '\r');
            }
            assert(t.subrange(key.len() as int, e) =~= l.subrange(key.len() as int, l.len() as int));
        }
    }
    if has_prefix_at(t, 0, key) {
        if key.len() > l.len() {
            assert(t.subrange(0, key.len() as int)[l.len() as int] == t[l.len() as int]);
            assert(t[l.len() as int] == nl[0]);
            assert(false);
        }
        assert(t.subrange(0, key.len() as int) =~= l.subrange(0, key.len() as int));
    }
    assert forall|q: int| 0 <= q <= s.len() implies #[trigger] marker_line(t, k + q, key) == marker_line(s, q, key) by {
        lemma_marker_shift(h, s, key, q);
    };
    assert forall|q: int| 0 <= q <= s.len() implies #[trigger] prefix_line(t, k + q, key) == prefix_line(s, q, key) by {
        lemma_marker_shift(h, s, key, q);
    };
    assert forall|q: int| 0 <= q <= s.len() && marker_line(s, q, key) implies
        #[trigger] marker_value(t, k + q, key) == marker_value(s, q, key) by {
        lemma_marker_shift(h, s, key, q);
    };
}

/// Behind a line that does not begin with the key, a line of the result
/// that begins with the key is one of `s`.
proof fn lemma_other_line_at(l: Seq<char>, nl: Seq<char>, s: Seq<char>, key: Seq<char>, p: int)
    requires
        no_newline(l),
        no_cr(l),
        no_newline(key),
        no_cr(key),
        is_line_break(nl),
        !starts_with(l, key),
    ensures
        marker_line(l + nl + s, p, key) ==> p >= l.len() + nl.len() && marker_line(s, p - (l.len() + nl.len()), key),
        prefix_line(l + nl + s, p, key) ==> p >= l.len() + nl.len() && prefix_line(s, p - (l.len() + nl.len()), key),
{
    lemma_prepend_line(l, nl, s, key);
    let t = l + nl + s;
    let k = l.len() + nl.len();
    assert(t.len() == k + s.len());
    if marker_line(t, p, key) || prefix_line(t, p, key) {
        if p < k {
            assert(p == 0 || !is_line_start(t, p));
        }
        assert(marker_line(t, k + (p - k), key) == marker_line(s, p - k, key));
        assert(prefix_line(t, k + (p - k), key) == prefix_line(s, p - k, key));
    }
}

/// Behind a one-line prefix, each line of `s` is a line of the result.
proof fn lemma_line_behind(l: Seq<char>, nl: Seq<char>, s: Seq<char>, key: Seq<char>, q: int)
    requires
        no_newline(l),
        no_cr(l),
        no_newline(key),
        no_cr(key),
        is_line_break(nl),
        0 <= q <= s.len(),
    ensures
        marker_line(l + nl + s, l.len() + nl.len() + q, key) == marker_line(s, q, key),
        prefix_line(l + nl + s, l.len() + nl.len() + q, key) == prefix_line(s, q, key),
        marker_line(s, q, key) ==> marker_value(l + nl + s, l.len() + nl.len() + q, key) == marker_value(s, q, key),
{
    lemma_prepend_line(l, nl, s, key);
}

proof fn lemma_other_line_first(l: Seq<char>, nl: Seq<char>, s: Seq<char>, key: Seq<char>)
    requires
        no_newline(l),
        no_cr(l),
        no_newline(key),
        no_cr(key),
        is_line_break(nl),
        !starts_with(l, key),
    ensures
        ({
            let t = l + nl + s;
            let k = l.len() + nl.len();
            &&& has_marker(t, key) == has_marker(s, key)
            &&& has_marker(s, key) ==> first_marker(t, key) == k + first_marker(s, key)
            &&& has_marker(s, key) ==> marker_value(t, first_marker(t, key), key)
                == marker_value(s, first_marker(s, key), key)
        }),
{
    let t = l + nl + s;
    let k = l.len() + nl.len();
    if has_marker(s, key) {
        let g = choose|p: int| marker_line(s, p, key);
        lemma_first_marker_exists(s, key, g);
        let f = first_marker(s, key);
        lemma_line_behind(l, nl, s, key, f);
        assert forall|p: int| 0 <= p < k + f implies !#[trigger] marker_line(t, p, key) by {
            lemma_other_line_at(l, nl, s, key, p);
            if marker_line(t, p, key) {
                assert(!marker_line(s, p - k, key));
            }
        };
        lemma_first_marker(t, key, k + f);
    }
    if has_marker(t, key) {
        let p = choose|p: int| marker_line(t, p, key);
        lemma_other_line_at(l, nl, s, key, p);
    }
}

proof fn lemma_other_line_second_fwd(l: Seq<char>, nl: Seq<char>, s: Seq<char>, key: Seq<char>, q: int)
    requires
        no_newline(l),
        no_cr(l),
        no_newline(key),
        no_cr(key),
        is_line_break(nl),
        !starts_with(l, key),
        has_marker(s, key),
        first_marker(l + nl + s, key) == l.len() + nl.len() + first_marker(s, key),
        marker_line(s, q, key),
        q != first_marker(s, key),
    ensures
        second_marker(l + nl + s, key),
{
        lemma_line_behind(l, nl, s, key, q);
    let t = l + nl + s;
    let k = l.len() + nl.len();
    assert(marker_line(t, k + q, key) && k + q != first_marker(t, key));
}

proof fn lemma_other_line_second_back(l: Seq<char>, nl: Seq<char>, s: Seq<char>, key: Seq<char>, q: int)
    requires
        no_newline(l),
        no_cr(l),
        no_newline(key),
        no_cr(key),
        is_line_break(nl),
        !starts_with(l, key),
        has_marker(s, key) ==> first_marker(l + nl + s, key) == l.len() + nl.len() + first_marker(s, key),
        marker_line(l + nl + s, q, key),
        q != first_marker(l + nl + s, key),
    ensures
        second_marker(s, key),
{
        lemma_other_line_at(l, nl, s, key, q);
    let k = l.len() + nl.len();
    assert(marker_line(s, q - k, key));
    assert(has_marker(s, key));
    assert(q - k != first_marker(s, key));
}

#[verifier::spinoff_prover]
#[verifier::rlimit(30)]
proof fn lemma_other_line_second(l: Seq<char>, nl: Seq<char>, s: Seq<char>, key: Seq<char>)
    requires
        no_newline(l),
        no_cr(l),
        no_newline(key),
        no_cr(key),
        is_line_break(nl),
        !starts_with(l, key),
    ensures
        second_marker(l + nl + s, key) == second_marker(s, key),
{
    lemma_other_line_first(l, nl, s, key);
        let t = l + nl + s;
    if second_marker(s, key) {
        let q = choose|q: int| marker_line(s, q, key) && q != first_marker(s, key);
        lemma_other_line_second_fwd(l, nl, s, key, q);
    }
    if second_marker(t, key) {
        let q = choose|q: int| marker_line(t, q, key) && q != first_marker(t, key);
        lemma_other_line_second_back(l, nl, s, key, q);
    }
}

proof fn lemma_other_line_prefix(l: Seq<char>, nl: Seq<char>, s: Seq<char>, key: Seq<char>)
    requires
        no_newline(l),
        no_cr(l),
        no_newline(key),
        no_cr(key),
        is_line_break(nl),
        !starts_with(l, key),
    ensures
        has_prefix_line(l + nl + s, key) == has_prefix_line(s, key),
{
    let t = l + nl + s;
    let k = l.len() + nl.len();
    if has_prefix_line(s, key) {
        let q = choose|q: int| prefix_line(s, q, key);
        lemma_prefix_line_bound(s, q, key);
        lemma_line_behind(l, nl, s, key, q);
        assert(prefix_line(t, k + q, key));
    }
    if has_prefix_line(t, key) {
        let p = choose|p: int| prefix_line(t, p, key);
        lemma_other_line_at(l, nl, s, key, p);
        assert(prefix_line(s, p - k, key));
    }
}

proof fn lemma_other_line_valued(l: Seq<char>, nl: Seq<char>, s: Seq<char>, key: Seq<char>)
    requires
        no_newline(l),
        no_cr(l),
        no_newline(key),
        no_cr(key),
        is_line_break(nl),
        !starts_with(l, key),
    ensures
        forall|a: Seq<char>, b: Seq<char>| #[trigger] has_marker_valued(l + nl + s, key, a, b) == has_marker_valued(s, key, a, b),
{
    let t = l + nl + s;
    let k = l.len() + nl.len();
    assert forall|a: Seq<char>, b: Seq<char>| #[trigger] has_marker_valued(t, key, a, b) == has_marker_valued(s, key, a, b) by {
        if has_marker_valued(t, key, a, b) {
            let p = choose|p: int| marker_line(t, p, key) && (marker_value(t, p, key) == a || marker_value(t, p, key) == b);
            lemma_other_line_at(l, nl, s, key, p);
            lemma_line_behind(l, nl, s, key, p - k);
            assert(marker_line(s, p - k, key));
        }
        if has_marker_valued(s, key, a, b) {
            let q = choose|q: int| marker_line(s, q, key) && (marker_value(s, q, key) == a || marker_value(s, q, key) == b);
            lemma_line_behind(l, nl, s, key, q);
            assert(marker_line(t, k + q, key));
        }
    };
}

/// A line that does not begin with the key, put in front of `s`, changes
/// nothing about the key's markers.
pub proof fn lemma_prepend_other_line(l: Seq<char>, nl: Seq<char>, s: Seq<char>, key: Seq<char>)
    requires
        no_newline(l),
        no_cr(l),
        no_newline(key),
        no_cr(key),
        is_line_break(nl),
        !starts_with(l, key),
    ensures
        ({
            let t = l + nl + s;
            let k = l.len() + nl.len();
            &&& has_marker(t, key) == has_marker(s, key)
            &&& has_marker(s, key) ==> first_marker(t, key) == k + first_marker(s, key)
            &&& has_marker(s, key) ==> marker_value(t, first_marker(t, key), key)
                == marker_value(s, first_marker(s, key), key)
            &&& second_marker(t, key) == second_marker(s, key)
            &&& has_prefix_line(t, key) == has_prefix_line(s, key)
            &&& forall|a: Seq<char>, b: Seq<char>| #[trigger] has_marker_valued(t, key, a, b) == has_marker_valued(s, key, a, b)
        }),
{
    lemma_other_line_first(l, nl, s, key);
    lemma_other_line_second(l, nl, s, key);
    lemma_other_line_prefix(l, nl, s, key);
    lemma_other_line_valued(l, nl, s, key);
}

pub proof fn lemma_prefix_line_bound(s: Seq<char>, p: int, key: Seq<char>)
    requires
        prefix_line(s, p, key),
    ensures
        0 <= p <= s.len(),
{
}

/// Where a marker exists, the first one exists too.
pub proof fn lemma_first_marker_exists(s: Seq<char>, key: Seq<char>, g: int)
    requires
        marker_line(s, g, key),
    ensures
        marker_line(s, first_marker(s, key), key),
        no_marker_in(s, key, 0, first_marker(s, key)),
    decreases g,
{
    if no_marker_in(s, key, 0, g) {
        lemma_first_marker(s, key, g);
    } else {
        let h = choose|q: int| 0 <= q < g && marker_line(s, q, key);
        lemma_first_marker_exists(s, key, h);
    }
}

/// A marker line whose value is neither `a` nor `b`, put in front of `s`,
/// adds no marker with either value.
pub proof fn lemma_prepend_valued_line(l: Seq<char>, nl: Seq<char>, s: Seq<char>, key: Seq<char>, a: Seq<char>, b: Seq<char>)
    requires
        no_newline(l),
        no_cr(l),
        no_newline(key),
        no_cr(key),
        is_line_break(nl),
        starts_with(l, key),
        l.subrange(key.len() as int, l.len() as int) != a,
        l.subrange(key.len() as int, l.len() as int) != b,
    ensures
        has_marker_valued(l + nl + s, key, a, b) == has_marker_valued(s, key, a, b),
{
    lemma_prepend_line(l, nl, s, key);
    let t = l + nl + s;
    let k = l.len() + nl.len();
    if has_marker_valued(t, key, a, b) {
        let p = choose|p: int| marker_line(t, p, key) && (marker_value(t, p, key) == a || marker_value(t, p, key) == b);
        if p == 0 {
            assert(false);
        } else if p < k {
            assert(!is_line_start(t, p));
        } else {
            assert(marker_line(t, k + (p - k), key));
            assert(marker_line(s, p - k, key));
        }
    }
    if has_marker_valued(s, key, a, b) {
        let q = choose|q: int| marker_line(s, q, key) && (marker_value(s, q, key) == a || marker_value(s, q, key) == b);
        assert(marker_line(t, k + q, key));
    }
}

proof fn lemma_differs_at(l: Seq<char>, key: Seq<char>, i: int)
    requires
        0 <= i < key.len(),
        i < l.len(),
        l[i] != key[i],
    ensures
        !starts_with(l, key),
{
    if starts_with(l, key) {
        assert(l.subrange(0, key.len() as int)[i] == l[i]);
    }
}

/// The marker keys are plain text of one line.
pub proof fn lemma_keys_plain()
    ensures
        no_newline(version_key()) && no_cr(version_key()) && version_key().len() == 35,
        no_newline(hash_key()) && no_cr(hash_key()) && hash_key().len() == 29,
        no_newline(disable_key()) && no_cr(disable_key()) && disable_key().len() == 43,
        no_newline(dialog_info_key()) && no_cr(dialog_info_key()) && dialog_info_key().len() == 27,
        no_newline(parameter_key()) && no_cr(parameter_key()) && parameter_key().len() == 25,
        version_key()[2] == 'r' && version_key()[15] == 'r',
        hash_key()[2] == 'r' && hash_key()[15] == 'o',
        disable_key()[2] == 'r' && disable_key()[15] == 'd',
        dialog_info_key()[2] == 'r' && dialog_info_key()[15] == 'd',
        parameter_key()[2] == 'r' && parameter_key()[15] == 'p',
{
    reveal_strlit("--rikky_modoki:replacement_version=");
    reveal_strlit("--rikky_modoki:original_hash=");
    reveal_strlit("--rikky_modoki:disable_further_replacement=");
    reveal_strlit("--rikky_modoki:dialog_info=");
    reveal_strlit("--rikky_modoki:parameter=");
}

/// A line in front of `s` that begins with none of the version, dialog and
/// parameter keys leaves the rule version of `s` as it is.
proof fn lemma_prepend_keeps_version(l: Seq<char>, nl: Seq<char>, s: Seq<char>)
    requires
        no_newline(l),
        no_cr(l),
        is_line_break(nl),
        !starts_with(l, version_key()),
        !starts_with(l, dialog_info_key()),
        !starts_with(l, parameter_key()),
    ensures
        spec_replacement_version(l + nl + s) == spec_replacement_version(s),
{
    reveal(spec_replacement_version);
    lemma_keys_plain();
    lemma_prepend_other_line(l, nl, s, version_key());
    lemma_prepend_other_line(l, nl, s, dialog_info_key());
    lemma_prepend_other_line(l, nl, s, parameter_key());
}

/// A line in front of `s` that does not begin with the hash key leaves the
/// recorded hash of `s` as it is.
proof fn lemma_prepend_keeps_hash(l: Seq<char>, nl: Seq<char>, s: Seq<char>)
    requires
        no_newline(l),
        no_cr(l),
        is_line_break(nl),
        !starts_with(l, hash_key()),
    ensures
        spec_original_hash(l + nl + s) == spec_original_hash(s),
{
    reveal(spec_original_hash);
    lemma_keys_plain();
    lemma_prepend_other_line(l, nl, s, hash_key());
}

/// Keeps all three kinds of markers for a line of a comment block.
proof fn lemma_prepend_comment(l: Seq<char>, nl: Seq<char>, s: Seq<char>)
    requires
        no_newline(l),
        no_cr(l),
        is_line_break(nl),
        l.len() >= 3,
        l[2] != 'r',
    ensures
        spec_replacement_version(l + nl + s) == spec_replacement_version(s),
        spec_original_hash(l + nl + s) == spec_original_hash(s),
        has_marker_valued(l + nl + s, disable_key(), "yes"@, "yes"@) == has_marker_valued(s, disable_key(), "yes"@, "yes"@),
{
    lemma_keys_plain();
    lemma_differs_at(l, version_key(), 2);
    lemma_differs_at(l, dialog_info_key(), 2);
    lemma_differs_at(l, parameter_key(), 2);
    lemma_differs_at(l, hash_key(), 2);
    lemma_differs_at(l, disable_key(), 2);
    lemma_prepend_keeps_version(l, nl, s);
    lemma_prepend_keeps_hash(l, nl, s);
    lemma_prepend_other_line(l, nl, s, disable_key());
}

proof fn lemma_prepend_dashes(nl: Seq<char>, s: Seq<char>)
    requires
        is_line_break(nl),
    ensures
        spec_replacement_version("--"@ + nl + s) == spec_replacement_version(s),
        spec_original_hash("--"@ + nl + s) == spec_original_hash(s),
        has_marker_valued("--"@ + nl + s, disable_key(), "yes"@, "yes"@) == has_marker_valued(s, disable_key(), "yes"@, "yes"@),
{
    reveal_strlit("--");
    lemma_keys_plain();
    let l = "--"@;
    assert(!starts_with(l, version_key()));
    assert(!starts_with(l, dialog_info_key()));
    assert(!starts_with(l, parameter_key()));
    assert(!starts_with(l, hash_key()));
    assert(!starts_with(l, disable_key()));
    lemma_prepend_keeps_version(l, nl, s);
    lemma_prepend_keeps_hash(l, nl, s);
    lemma_prepend_other_line(l, nl, s, disable_key());
}

proof fn lemma_alert_lines_plain()
    ensures
        no_newline("-- "@ + alert_first()) && no_cr("-- "@ + alert_first()) && ("-- "@ + alert_first())[2] == ' ',
        no_newline("-- "@ + alert_second()) && no_cr("-- "@ + alert_second()) && ("-- "@ + alert_second())[2] == ' ',
        no_newline("-- "@ + alert_third()) && no_cr("-- "@ + alert_third()) && ("-- "@ + alert_third())[2] == ' ',
        ("-- "@ + alert_first()).len() >= 3,
        ("-- "@ + alert_second()).len() >= 3,
        ("-- "@ + alert_third()).len() >= 3,
{
    reveal_strlit("-- ");
    reveal_strlit("このスクリプトはrikky_modoki.aux2によって編集処理が行われました。");
    reveal_strlit("このスクリプトを編集すると、将来のrikky_modoki.aux2の変更で上書きされる可能性があります。");
    reveal_strlit("このスクリプトの編集を無効化するには、以下の行の「no」を「yes」に変更してください。");
    let a = "-- "@ + alert_first();
    let b = "-- "@ + alert_second();
    let c = "-- "@ + alert_third();
    assert forall|i: int| 0 <= i < a.len() implies a[i] != '\n' && a[i] != '\r' by {};
    assert forall|i: int| 0 <= i < b.len() implies b[i] != '\n' && b[i] != '\r' by {};
    assert forall|i: int| 0 <= i < c.len() implies c[i] != '\n' && c[i] != '\r' by {};
}

proof fn lemma_prepend_disable_line(nl: Seq<char>, s: Seq<char>)
    requires
        is_line_break(nl),
    ensures
        ({
            let t = "--rikky_modoki:disable_further_replacement=no"@ + nl + s;
            &&& spec_replacement_version(t) == spec_replacement_version(s)
            &&& spec_original_hash(t) == spec_original_hash(s)
            &&& has_marker_valued(t, disable_key(), "yes"@, "yes"@) == has_marker_valued(s, disable_key(), "yes"@, "yes"@)
        }),
{
    reveal_strlit("--rikky_modoki:disable_further_replacement=no");
    reveal_strlit("--rikky_modoki:disable_further_replacement=");
    reveal_strlit("--rikky_modoki:dialog_info=");
    reveal_strlit("no");
    reveal_strlit("yes");
    lemma_keys_plain();
    let l = "--rikky_modoki:disable_further_replacement=no"@;
    assert(no_newline(l) && no_cr(l));
    lemma_differs_at(l, version_key(), 15);
    lemma_differs_at(l, parameter_key(), 15);
    lemma_differs_at(l, hash_key(), 15);
    assert(dialog_info_key()[17] == 'a');
    lemma_differs_at(l, dialog_info_key(), 17);
    lemma_prepend_keeps_version(l, nl, s);
    lemma_prepend_keeps_hash(l, nl, s);
    assert(l.subrange(0, 43) =~= disable_key());
    assert(l.subrange(43, l.len() as int) =~= "no"@);
    assert(l.subrange(43, l.len() as int) != "yes"@) by {
        assert(l.subrange(43, l.len() as int).len() != "yes"@.len());
    };
    lemma_prepend_valued_line(l, nl, s, disable_key(), "yes"@, "yes"@);
}

pub open spec fn is_hex_hash(hash: Seq<char>) -> bool {
    hash.len() == 16 && forall|i: int| 0 <= i < 16 ==> #[trigger] is_lower_hex(hash[i])
}

proof fn lemma_prepend_hash_line(hash: Seq<char>, nl: Seq<char>, s: Seq<char>)
    requires
        is_line_break(nl),
        is_hex_hash(hash),
        !has_marker(s, hash_key()),
    ensures
        ({
            let t = hash_key() + hash + nl + s;
            &&& spec_replacement_version(t) == spec_replacement_version(s)
            &&& spec_original_hash(t) == Ok::<Option<Seq<char>>, ScriptError>(Some(hash))
            &&& forall|a: Seq<char>, b: Seq<char>| #[trigger] has_marker_valued(t, disable_key(), a, b)
                == has_marker_valued(s, disable_key(), a, b)
        }),
{
    reveal(spec_original_hash);
    lemma_keys_plain();
    let l = hash_key() + hash;
    let key = hash_key();
    assert forall|i: int| 0 <= i < l.len() implies l[i] != '\n' && l[i] != '\r' by {
        if i >= key.len() {
            assert(is_lower_hex(hash[i - key.len()]));
        }
    };
    lemma_differs_at(l, version_key(), 15);
    lemma_differs_at(l, parameter_key(), 15);
    lemma_differs_at(l, dialog_info_key(), 15);
    lemma_differs_at(l, disable_key(), 15);
    lemma_prepend_keeps_version(l, nl, s);
    lemma_prepend_other_line(l, nl, s, disable_key());
    let t = l + nl + s;
    assert(l.subrange(0, key.len() as int) =~= key);
    lemma_prepend_line(l, nl, s, key);
    assert(marker_line(t, 0, key));
    assert(l.subrange(key.len() as int, l.len() as int) =~= hash);
    lemma_first_marker(t, key, 0);
        assert(!second_marker(t, key)) by {
        if second_marker(t, key) {
            let q = choose|q: int| marker_line(t, q, key) && q != first_marker(t, key);
            lemma_marker_after_first_line(l, nl, s, key, q);
            assert(marker_line(s, q - (l.len() + nl.len()), key));
        }
    };
}

/// Behind any one-line prefix, a marker after the first line is one of `s`.
proof fn lemma_marker_after_first_line(l: Seq<char>, nl: Seq<char>, s: Seq<char>, key: Seq<char>, p: int)
    requires
        no_newline(l),
        no_cr(l),
        no_newline(key),
        no_cr(key),
        is_line_break(nl),
        marker_line(l + nl + s, p, key),
        p != 0,
    ensures
        p >= l.len() + nl.len() && marker_line(s, p - (l.len() + nl.len()), key),
{
    lemma_prepend_line(l, nl, s, key);
    let t = l + nl + s;
    let k = l.len() + nl.len();
    if p < k {
        assert(!is_line_start(t, p));
    }
    lemma_line_behind(l, nl, s, key, p - k);
}

pub proof fn lemma_line_break_of(s: Seq<char>)
    ensures
        is_line_break(newline_of(s)),
{
}

/// The version line in front of a script changes nothing about its switch.
proof fn lemma_version_line_keeps_switch(s: Seq<char>)
    ensures
        forall|a: Seq<char>, b: Seq<char>| #[trigger] has_marker_valued(version_line() + newline_of(s) + s, disable_key(), a, b)
            == has_marker_valued(s, disable_key(), a, b),
{
    reveal_strlit("--rikky_modoki:replacement_version=5");
    lemma_keys_plain();
    let l = version_line();
    assert(no_newline(l) && no_cr(l));
    lemma_differs_at(l, disable_key(), 15);
    lemma_prepend_other_line(l, newline_of(s), s, disable_key());
}

/// The script with its version line and its hash line, before the
/// comment block goes in front.
pub open spec fn marked_script(s: Seq<char>, hash: Seq<char>) -> Seq<char> {
    let v = spec_versioned_script(s)->Ok_0;
    let nl = newline_of(v);
    if spec_original_hash(v)->Ok_0 is None {
        hash_key() + hash + nl + v
    } else {
        v
    }
}

proof fn lemma_marked_script(s: Seq<char>, hash: Seq<char>)
    requires
        is_hex_hash(hash),
        spec_prepare_replaced_script(s, hash) is Ok,
    ensures
        ({
            let w = marked_script(s, hash);
            &&& spec_replacement_version(w) matches Ok(Some(v)) && v >= REPLACEMENT_VERSION
            &&& spec_original_hash(w) == Ok::<Option<Seq<char>>, ScriptError>(Some(hash))
            &&& forall|a: Seq<char>, b: Seq<char>| #[trigger] has_marker_valued(w, disable_key(), a, b)
                == has_marker_valued(s, disable_key(), a, b)
            &&& spec_prepare_replaced_script(s, hash) == Ok::<Seq<char>, ScriptError>(
                if has_marker_valued(w, disable_key(), "yes"@, "no"@) {
                    w
                } else {
                    alert_header(newline_of(spec_versioned_script(s)->Ok_0)) + w
                },
            )
        }),
{
    lemma_versioned_script_idempotent(s);
    let v = spec_versioned_script(s)->Ok_0;
    if v != s {
        lemma_version_line_keeps_switch(s);
        assert(v == version_line() + newline_of(s) + s);
    }
    let nl = newline_of(v);
    lemma_line_break_of(v);
    if spec_original_hash(v)->Ok_0 is None {
        reveal(spec_original_hash);
        lemma_prepend_hash_line(hash, nl, v);
    }
}

/// The comment block in front keeps every marker that the next rewrite
/// reads, and adds no switch that turns rewrites off.
proof fn lemma_alert_header_keeps_markers(nl: Seq<char>, w: Seq<char>)
    requires
        is_line_break(nl),
    ensures
        spec_replacement_version(alert_header(nl) + w) == spec_replacement_version(w),
        spec_original_hash(alert_header(nl) + w) == spec_original_hash(w),
        has_marker_valued(alert_header(nl) + w, disable_key(), "yes"@, "yes"@)
            == has_marker_valued(w, disable_key(), "yes"@, "yes"@),
{
    let r6 = "--"@ + nl + w;
    let r5 = "--rikky_modoki:disable_further_replacement=no"@ + nl + r6;
    let r4 = "-- "@ + alert_third() + nl + r5;
    let r3 = "-- "@ + alert_second() + nl + r4;
    let r2 = "-- "@ + alert_first() + nl + r3;
    let r1 = "--"@ + nl + r2;
    assert(alert_header(nl) + w =~= r1);
    lemma_alert_lines_plain();
    lemma_prepend_dashes(nl, w);
    lemma_prepend_disable_line(nl, r6);
    lemma_prepend_comment("-- "@ + alert_third(), nl, r5);
    lemma_prepend_comment("-- "@ + alert_second(), nl, r4);
    lemma_prepend_comment("-- "@ + alert_first(), nl, r3);
    lemma_prepend_dashes(nl, r2);
}

/// What a rewrite writes reads back as a script of the current rules:
/// the next rewrite takes it as it is (or leaves it alone where its owner
/// turned rewrites off), and finds its original under the recorded hash.
pub proof fn lemma_prepared_script_reads_back(s: Seq<char>, hash: Seq<char>)
    requires
        is_hex_hash(hash),
        spec_prepare_replaced_script(s, hash) is Ok,
    ensures
        ({
            let t = spec_prepare_replaced_script(s, hash)->Ok_0;
            &&& spec_replacement_version(t) matches Ok(Some(v)) && v >= REPLACEMENT_VERSION
            &&& spec_original_hash(t) == Ok::<Option<Seq<char>>, ScriptError>(Some(hash))
            &&& spec_further_replacement_disabled(t) == spec_further_replacement_disabled(s)
            &&& spec_replacement_plan(t) == Ok::<ReplacementPlan, ScriptError>(
                if spec_further_replacement_disabled(s) {
                    ReplacementPlan::Disabled
                } else {
                    ReplacementPlan::Current
                },
            )
            &&& spec_backup_source(t) == Ok::<SpecBackupSource, ScriptError>(SpecBackupSource::Hashed(hash))
        }),
{
    lemma_marked_script(s, hash);
    let w = marked_script(s, hash);
    let nl = newline_of(spec_versioned_script(s)->Ok_0);
    lemma_line_break_of(spec_versioned_script(s)->Ok_0);
    assert(has_marker_valued(w, disable_key(), "yes"@, "yes"@) == has_marker_valued(s, disable_key(), "yes"@, "yes"@));
    if !has_marker_valued(w, disable_key(), "yes"@, "no"@) {
        lemma_alert_header_keeps_markers(nl, w);
    }
}

} // verus!
