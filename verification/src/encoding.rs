//! Text encodings: Shift-JIS through `encoding_rs`, the hash of a script
//! through `xxhash_rust`, and the UTF-8 and UTF-16 forms of text.
use vstd::prelude::*;
use crate::number::{hex_fixed, hex_fixed_exec};
use crate::script::ScriptError;
use crate::text::{chars_of, string_from_chars};
use vstd::utf8::{decode_utf8, encode_utf8, valid_utf8};

verus! {

/// What `encoding_rs::SHIFT_JIS.decode` gives for the bytes: the text, and
/// whether a malformed sequence was replaced.
pub uninterp spec fn shift_jis_decoded(bytes: Seq<u8>) -> (Seq<char>, bool);

/// What `encoding_rs::SHIFT_JIS.decode_without_bom_handling_and_without_replacement`
/// gives for the bytes: the text, or nothing where a sequence is malformed.
pub uninterp spec fn shift_jis_strict(bytes: Seq<u8>) -> Option<Seq<char>>;

/// What `encoding_rs::SHIFT_JIS.encode` gives for the text: the bytes, and
/// whether a character had no Shift-JIS form and was written as an HTML
/// character reference.
pub uninterp spec fn shift_jis_encoded(text: Seq<char>) -> (Seq<u8>, bool);

/// What `xxhash_rust::xxh3::xxh3_64` gives for the bytes.
pub uninterp spec fn xxh3_of(bytes: Seq<u8>) -> u64;

/// `encoding_rs::Encoding::decode` on `SHIFT_JIS`. The result is named, not
/// described. Its size computation can overflow `usize` only for inputs
/// beyond the bound that `requires` sets.
#[verifier::external_body]
fn decode_shift_jis(bytes: &[u8]) -> (r: (String, bool))
    requires
        bytes@.len() <= usize::MAX / 16,
    ensures
        (r.0@, r.1) == shift_jis_decoded(bytes@),
{
    let (text, _, errors) = encoding_rs::SHIFT_JIS.decode(bytes);
    (text.into_owned(), errors)
}

/// `encoding_rs::Encoding::decode_without_bom_handling_and_without_replacement`
/// on `SHIFT_JIS`. The result is named, not described.
#[verifier::external_body]
fn decode_shift_jis_strict(bytes: &[u8]) -> (r: Option<String>)
    requires
        bytes@.len() <= usize::MAX / 16,
    ensures
        match (r, shift_jis_strict(bytes@)) {
            (Some(a), Some(b)) => a@ == b,
            (None, None) => true,
            _ => false,
        },
{
    encoding_rs::SHIFT_JIS.decode_without_bom_handling_and_without_replacement(bytes).map(|text| text.into_owned())
}

/// `encoding_rs::Encoding::encode` on `SHIFT_JIS`. The result is named, not
/// described.
#[verifier::external_body]
fn encode_shift_jis(text: &str) -> (r: (Vec<u8>, bool))
    requires
        text@.len() <= usize::MAX / 64,
    ensures
        (r.0@, r.1) == shift_jis_encoded(text@),
{
    let (bytes, _, errors) = encoding_rs::SHIFT_JIS.encode(text);
    (bytes.into_owned(), errors)
}

/// `xxhash_rust::xxh3::xxh3_64`. The hash is named, not described.
#[verifier::external_body]
fn xxh3_64(bytes: &[u8]) -> (r: u64)
    ensures
        r == xxh3_of(bytes@),
{
    xxhash_rust::xxh3::xxh3_64(bytes)
}

/// The UTF-16 code units of a character.
pub open spec fn utf16_of_char(c: char) -> Seq<u16> {
    let v = c as u32;
    if v < 0x10000 {
        seq![v as u16]
    } else {
        seq![(0xd800 + (v - 0x10000) / 0x400) as u16, (0xdc00 + (v - 0x10000) % 0x400) as u16]
    }
}

/// The UTF-16 code units of a text.
pub open spec fn utf16_of(s: Seq<char>) -> Seq<u16>
    decreases s.len(),
{
    if s.len() == 0 {
        Seq::empty()
    } else {
        utf16_of(s.drop_last()) + utf16_of_char(s.last())
    }
}

/// `String::from_utf16` (std): the text whose UTF-16 form the units are,
/// or an error where there is none.
#[verifier::external_body]
fn string_from_utf16(units: &[u16]) -> (r: Option<String>)
    ensures
        match r {
            Some(s) => utf16_of(s@) == units@,
            None => forall|t: Seq<char>| utf16_of(t) != units@,
        },
{
    String::from_utf16(units).ok()
}

/// `String::from_utf8` (std): the text that the bytes are the UTF-8 form
/// of, or nothing where they are not valid UTF-8.
#[verifier::external_body]
fn string_from_utf8(bytes: Vec<u8>) -> (r: Option<String>)
    ensures
        match r {
            Some(s) => valid_utf8(bytes@) && s@ == decode_utf8(bytes@),
            None => !valid_utf8(bytes@),
        },
{
    String::from_utf8(bytes).ok()
}

pub proof fn lemma_utf16_push(s: Seq<char>, c: char)
    ensures
        utf16_of(s.push(c)) == utf16_of(s) + utf16_of_char(c),
{
    assert(s.push(c).drop_last() =~= s);
}

/// The UTF-16 code units of a text.
pub fn utf16_units(s: &Vec<char>) -> (r: Vec<u16>)
    ensures
        r@ == utf16_of(s@),
{
    let mut out: Vec<u16> = Vec::new();
    let mut i: usize = 0;
    while i < s.len()
        invariant
            i <= s@.len(),
            out@ == utf16_of(s@.take(i as int)),
        decreases s@.len() - i,
    {
        let c = s[i];
        let v = c as u32;
        proof {
            lemma_utf16_push(s@.take(i as int), c);
            assert(s@.take(i + 1) =~= s@.take(i as int).push(c));
        }
        proof {
            vstd::utf8::char_is_scalar(c);
        }
        assert(vstd::utf8::is_scalar(v));
        if v < 0x10000 {
            out.push(v as u16);
            assert(utf16_of_char(c) == seq![v as u16]);
        } else {
            let w = v - 0x10000;
            out.push((0xd800 + w / 0x400) as u16);
            out.push((0xdc00 + w % 0x400) as u16);
            assert(utf16_of_char(c) =~= seq![(0xd800 + w / 0x400) as u16, (0xdc00 + w % 0x400) as u16]);
        }
        i = i + 1;
        proof {
            assert(out@ =~= utf16_of(s@.take(i as int)));
        }
    }
    assert(s@.take(s@.len() as int) =~= s@);
    out
}

pub proof fn lemma_utf8_len(s: Seq<char>)
    ensures
        encode_utf8(s).len() >= s.len(),
    decreases s.len(),
{
    if s.len() > 0 {
        lemma_utf8_len(s.drop_first());
    }
}

pub proof fn lemma_utf16_len(s: Seq<char>)
    ensures
        utf16_of(s).len() >= s.len(),
    decreases s.len(),
{
    if s.len() > 0 {
        lemma_utf16_len(s.drop_last());
    }
}

/// A character's UTF-16 form ends in a low surrogate exactly when it takes
/// two units.
proof fn lemma_utf16_char_shape(c: char)
    ensures
        (c as u32) < 0x10000 ==> utf16_of_char(c).len() == 1 && !(0xdc00 <= utf16_of_char(c)[0] <= 0xdfff),
        (c as u32) >= 0x10000 ==> utf16_of_char(c).len() == 2 && 0xdc00 <= utf16_of_char(c)[1] <= 0xdfff
            && 0xd800 <= utf16_of_char(c)[0] <= 0xdbff,
{
    vstd::utf8::char_is_scalar(c);
}

/// Different texts have different UTF-16 forms.
pub proof fn lemma_utf16_injective(a: Seq<char>, b: Seq<char>)
    requires
        utf16_of(a) == utf16_of(b),
    ensures
        a == b,
    decreases a.len(),
{
    if a.len() == 0 {
        lemma_utf16_len(b);
        if b.len() > 0 {
            lemma_utf16_char_shape(b.last());
            assert(utf16_of(b).len() > 0);
        }
        assert(b.len() == 0);
        assert(a =~= b);
    } else {
        lemma_utf16_len(a);
        if b.len() == 0 {
            lemma_utf16_char_shape(a.last());
            assert(utf16_of(a).len() > 0);
        }
        let ca = a.last();
        let cb = b.last();
        lemma_utf16_char_shape(ca);
        lemma_utf16_char_shape(cb);
        vstd::utf8::char_is_scalar(ca);
        vstd::utf8::char_is_scalar(cb);
        let u = utf16_of(a);
        let ea = utf16_of_char(ca);
        let eb = utf16_of_char(cb);
        let ua = utf16_of(a.drop_last());
        let ub = utf16_of(b.drop_last());
        assert(u == ua + ea);
        assert(u == ub + eb);
        assert(u.last() == ea.last());
        assert(u.last() == eb.last());
        assert(ea.len() == eb.len());
        if ea.len() == 2 {
            assert(u[u.len() - 2] == ea[0]);
            assert(u[u.len() - 2] == eb[0]);
        }
        assert(ea =~= eb);
        assert(ca as u32 == cb as u32);
        vstd::utf8::char_u32_cast(ca, ca as u32);
        vstd::utf8::char_u32_cast(cb, cb as u32);
        assert(ca == cb);
        assert(ua =~= u.subrange(0, u.len() - ea.len()));
        assert(ub =~= u.subrange(0, u.len() - eb.len()));
        lemma_utf16_injective(a.drop_last(), b.drop_last());
        assert(a =~= a.drop_last().push(ca));
        assert(b =~= b.drop_last().push(cb));
    }
}

/// Why codes cannot be turned into text or back.
#[derive(Clone, Copy, Debug, PartialEq, Eq, Structural)]
pub enum CodesError {
    /// The bytes are not Shift-JIS.
    InvalidShiftJis,
    /// The units are not UTF-16.
    InvalidUtf16,
    /// A byte code above 255.
    ByteOutOfRange,
    /// The bytes are not UTF-8.
    InvalidUtf8,
    /// The text has characters that Shift-JIS cannot hold.
    NotShiftJis,
}

/// The Shift-JIS bytes of a text; characters that Shift-JIS cannot hold
/// are written as HTML character references.
pub fn to_sjis(input: &str) -> (r: Vec<u8>)
    requires
        input@.len() <= usize::MAX / 64,
    ensures
        r@ == shift_jis_encoded(input@).0,
{
    encode_shift_jis(input).0
}

/// The codes of Shift-JIS text: its UTF-16 units, or else its UTF-8 bytes.
pub open spec fn spec_codes(input: Seq<u8>, unicode: bool) -> Result<Seq<u16>, CodesError> {
    match shift_jis_strict(input) {
        None => Err(CodesError::InvalidShiftJis),
        Some(t) => Ok(if unicode {
            utf16_of(t)
        } else {
            encode_utf8(t).map_values(|b: u8| b as u16)
        }),
    }
}

/// Decodes Shift-JIS bytes and gives the text's UTF-16 units, or its UTF-8
/// bytes one per code.
pub fn convert_to_codes(input: &[u8], unicode: bool) -> (r: Result<Vec<u16>, CodesError>)
    requires
        input@.len() <= usize::MAX / 16,
    ensures
        match (spec_codes(input@, unicode), r) {
            (Ok(a), Ok(b)) => b@ == a,
            (Err(a), Err(b)) => a == b,
            _ => false,
        },
{
    let text = match decode_shift_jis_strict(input) {
        Some(t) => t,
        None => return Err(CodesError::InvalidShiftJis),
    };
    if unicode {
        let chars = chars_of(text.as_str());
        Ok(utf16_units(&chars))
    } else {
        let bytes = text.as_str().as_bytes();
        let mut out: Vec<u16> = Vec::new();
        let mut i: usize = 0;
        while i < bytes.len()
            invariant
                bytes@ == encode_utf8(text@),
                i <= bytes@.len(),
                out@ == bytes@.take(i as int).map_values(|b: u8| b as u16),
            decreases bytes@.len() - i,
        {
            out.push(bytes[i] as u16);
            i = i + 1;
            proof {
                assert(out@ =~= bytes@.take(i as int).map_values(|b: u8| b as u16));
            }
        }
        assert(bytes@.take(bytes@.len() as int) =~= bytes@);
        Ok(out)
    }
}

/// The text that codes stand for: UTF-16 units, or else UTF-8 bytes one
/// per code.
pub open spec fn text_of_codes(input: Seq<u16>, unicode: bool) -> Result<Seq<char>, CodesError> {
    if unicode {
        if exists|t: Seq<char>| utf16_of(t) == input {
            Ok(choose|t: Seq<char>| utf16_of(t) == input)
        } else {
            Err(CodesError::InvalidUtf16)
        }
    } else if exists|i: int| 0 <= i < input.len() && input[i] > 255 {
        Err(CodesError::ByteOutOfRange)
    } else {
        let bytes = input.map_values(|u: u16| u as u8);
        if valid_utf8(bytes) {
            Ok(decode_utf8(bytes))
        } else {
            Err(CodesError::InvalidUtf8)
        }
    }
}

pub open spec fn spec_from_codes(input: Seq<u16>, unicode: bool) -> Result<Seq<u8>, CodesError> {
    match text_of_codes(input, unicode) {
        Err(e) => Err(e),
        Ok(t) => if shift_jis_encoded(t).1 {
            Err(CodesError::NotShiftJis)
        } else {
            Ok(shift_jis_encoded(t).0)
        },
    }
}

/// Turns codes back into text and gives its Shift-JIS bytes; a character
/// without a Shift-JIS form is an error.
pub fn convert_from_codes(input: &[u16], unicode: bool) -> (r: Result<Vec<u8>, CodesError>)
    requires
        input@.len() <= usize::MAX / 64,
    ensures
        match (spec_from_codes(input@, unicode), r) {
            (Ok(a), Ok(b)) => b@ == a,
            (Err(a), Err(b)) => a == b,
            _ => false,
        },
{
    let text = if unicode {
        match string_from_utf16(input) {
            Some(t) => {
                proof {
                    let c = choose|x: Seq<char>| utf16_of(x) == input@;
                    lemma_utf16_injective(c, t@);
                }
                t
            },
            None => return Err(CodesError::InvalidUtf16),
        }
    } else {
        let mut bytes: Vec<u8> = Vec::new();
        let mut i: usize = 0;
        while i < input.len()
            invariant
                !unicode,
                i <= input@.len(),
                bytes@ == input@.take(i as int).map_values(|u: u16| u as u8),
                forall|j: int| 0 <= j < i ==> input@[j] <= 255,
            decreases input@.len() - i,
        {
            if input[i] > 255 {
                assert(input@[i as int] > 255);
                return Err(CodesError::ByteOutOfRange);
            }
            bytes.push(input[i] as u8);
            i = i + 1;
            proof {
                assert(bytes@ =~= input@.take(i as int).map_values(|u: u16| u as u8));
            }
        }
        assert(input@.take(input@.len() as int) =~= input@);
        match string_from_utf8(bytes) {
            Some(t) => t,
            None => return Err(CodesError::InvalidUtf8),
        }
    };
    proof {
        lemma_utf16_len(text@);
        if !unicode {
            let bytes = input@.map_values(|u: u16| u as u8);
            vstd::utf8::decode_utf8_encode_utf8(bytes);
            lemma_utf8_len(text@);
            assert(text@.len() <= input@.len());
        }
    }
    let (bytes, errors) = encode_shift_jis(text.as_str());
    if errors {
        Err(CodesError::NotShiftJis)
    } else {
        Ok(bytes)
    }
}

/// A script read from Shift-JIS bytes; bytes that do not decode are an
/// error.
pub open spec fn spec_decode_script(bytes: Seq<u8>) -> Result<Seq<char>, ScriptError> {
    if shift_jis_decoded(bytes).1 {
        Err(ScriptError::InvalidShiftJis)
    } else {
        Ok(shift_jis_decoded(bytes).0)
    }
}

pub fn decode_script(bytes: &[u8]) -> (r: Result<String, ScriptError>)
    requires
        bytes@.len() <= usize::MAX / 16,
    ensures
        match (spec_decode_script(bytes@), r) {
            (Ok(a), Ok(b)) => b@ == a,
            (Err(a), Err(b)) => a == b,
            _ => false,
        },
{
    let (text, errors) = decode_shift_jis(bytes);
    if errors {
        Err(ScriptError::InvalidShiftJis)
    } else {
        Ok(text)
    }
}

/// The Shift-JIS bytes of a script; a character without a Shift-JIS form
/// is an error.
pub open spec fn spec_encode_script(text: Seq<char>) -> Result<Seq<u8>, ScriptError> {
    if shift_jis_encoded(text).1 {
        Err(ScriptError::NotShiftJis)
    } else {
        Ok(shift_jis_encoded(text).0)
    }
}

pub fn encode_script(text: &str) -> (r: Result<Vec<u8>, ScriptError>)
    requires
        text@.len() <= usize::MAX / 64,
    ensures
        match (spec_encode_script(text@), r) {
            (Ok(a), Ok(b)) => b@ == a,
            (Err(a), Err(b)) => a == b,
            _ => false,
        },
{
    let (bytes, errors) = encode_shift_jis(text);
    if errors {
        Err(ScriptError::NotShiftJis)
    } else {
        Ok(bytes)
    }
}

/// The hash that names a script's backup: its xxh3 hash as 16 lower-case
/// hex digits.
pub open spec fn spec_script_hash(bytes: Seq<u8>) -> Seq<char> {
    hex_fixed(xxh3_of(bytes) as nat, 16)
}

pub fn script_hash(bytes: &[u8]) -> (r: String)
    ensures
        r@ == spec_script_hash(bytes@),
{
    string_from_chars(hex_fixed_exec(xxh3_64(bytes), 16))
}

/// The hash of a script is 16 lower-case hex digits, which is what a hash
/// marker must hold.
pub proof fn lemma_script_hash_is_hex(bytes: Seq<u8>)
    ensures
        crate::replacement::is_hex_hash(spec_script_hash(bytes)),
{
    crate::number::lemma_hex_fixed(xxh3_of(bytes) as nat, 16);
    let h = spec_script_hash(bytes);
    assert forall|i: int| 0 <= i < 16 implies #[trigger] crate::replacement::is_lower_hex(h[i]) by {
        let c = h[i];
        assert(('0' <= c <= '9') || ('a' <= c <= 'f'));
    };
}

} // verus!
