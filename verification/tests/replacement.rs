use rikky_modoki::encoding::{convert_from_codes, convert_to_codes, decode_script, encode_script, script_hash, to_sjis, CodesError};
use rikky_modoki::replacement::{
    backup_source, check_backup, further_replacement_disabled, original_hash, prepare_replaced_script, replacement_plan,
    replacement_version, versioned_script, BackupSource, ReplacementPlan,
};
use rikky_modoki::script::ScriptError;

fn chars(s: &str) -> Vec<char> {
    s.chars().collect()
}

fn text(v: &[char]) -> String {
    v.iter().collect()
}

#[test]
fn version_markers_are_read_line_by_line() {
    assert_eq!(replacement_version(&chars("--rikky_modoki:replacement_version=5\nx")).ok(), Some(Some(5)));
    assert_eq!(replacement_version(&chars("a\r\n--rikky_modoki:replacement_version=+7\r\n")).ok(), Some(Some(7)));
    assert_eq!(replacement_version(&chars("--rikky_modoki:replacement_version=x\n")).err(), Some(ScriptError::InvalidVersion));
    assert_eq!(
        replacement_version(&chars("--rikky_modoki:replacement_version=1\n--rikky_modoki:replacement_version=1")).err(),
        Some(ScriptError::DuplicateVersion)
    );
    assert_eq!(replacement_version(&chars("--rikky_modoki:parameter=a\n")).ok(), Some(Some(0)));
    assert_eq!(replacement_version(&chars(" --rikky_modoki:replacement_version=5")).ok(), Some(None));
}

#[test]
fn hash_markers_hold_sixteen_hex_digits() {
    assert_eq!(original_hash(&chars("--rikky_modoki:original_hash=0123456789abcdef\n")).ok().unwrap().map(|h| text(&h)), Some("0123456789abcdef".to_string()));
    assert_eq!(original_hash(&chars("--rikky_modoki:original_hash=0123456789ABCDEF\n")).err(), Some(ScriptError::InvalidHash));
    assert_eq!(
        original_hash(&chars("--rikky_modoki:original_hash=1\n--rikky_modoki:original_hash=1\n")).err(),
        Some(ScriptError::DuplicateHash)
    );
    assert_eq!(original_hash(&chars("x")).ok().map(|h| h.is_none()), Some(true));
}

#[test]
fn the_switch_turns_rewrites_off() {
    assert!(further_replacement_disabled(&chars("a\n--rikky_modoki:disable_further_replacement=yes\r\n")));
    assert!(!further_replacement_disabled(&chars("--rikky_modoki:disable_further_replacement=no\n")));
    assert!(!further_replacement_disabled(&chars("--rikky_modoki:disable_further_replacement=yes!\n")));
}

#[test]
fn marking_the_version_keeps_the_line_breaks_and_happens_once() {
    let once = versioned_script(&chars("a\r\nb")).ok().unwrap();
    assert_eq!(text(&once), "--rikky_modoki:replacement_version=5\r\na\r\nb");
    assert_eq!(versioned_script(&once).ok().unwrap(), once);
    assert_eq!(
        versioned_script(&chars("x\n--rikky_modoki:replacement_version=3\n")).err(),
        Some(ScriptError::OldVersionPresent)
    );
}

#[test]
fn a_written_script_reads_back_as_current() {
    let hash = "0123456789abcdef";
    let written = prepare_replaced_script("body\n", hash).ok().unwrap();
    assert_eq!(
        written,
        "--\n-- このスクリプトはrikky_modoki.aux2によって編集処理が行われました。\n\
-- このスクリプトを編集すると、将来のrikky_modoki.aux2の変更で上書きされる可能性があります。\n\
-- このスクリプトの編集を無効化するには、以下の行の「no」を「yes」に変更してください。\n\
--rikky_modoki:disable_further_replacement=no\n--\n--rikky_modoki:original_hash=0123456789abcdef\n\
--rikky_modoki:replacement_version=5\nbody\n"
    );
    assert_eq!(replacement_plan(&written).ok(), Some(ReplacementPlan::Current));
    assert!(matches!(backup_source(&written).ok(), Some(BackupSource::Hashed(h)) if h == hash));
    assert_eq!(prepare_replaced_script(&written, hash).ok(), Some(written.clone()));
    assert_eq!(prepare_replaced_script(&written, "ffffffffffffffff").err(), Some(ScriptError::HashChanged));
    let disabled = written.replace("=no", "=yes");
    assert_eq!(replacement_plan(&disabled).ok(), Some(ReplacementPlan::Disabled));
}

#[test]
fn older_rewrites_are_restored_from_their_backups() {
    assert_eq!(replacement_plan("--rikky_modoki:replacement_version=3\n").ok(), Some(ReplacementPlan::Restore));
    assert_eq!(replacement_plan("plain").ok(), Some(ReplacementPlan::Current));
    assert!(matches!(backup_source("plain").ok(), Some(BackupSource::Script)));
    assert!(matches!(backup_source("--rikky_modoki:dialog_info=a\n").ok(), Some(BackupSource::Legacy)));
    assert!(matches!(backup_source("--rikky_modoki:replacement_version=4\n"), Err(ScriptError::MissingOriginalHash)));
    assert_eq!(check_backup(b"plain", None), Ok(()));
    assert_eq!(check_backup(b"plain", Some("0123456789abcdef")), Err(ScriptError::BackupHashMismatch));
    assert_eq!(check_backup(b"--rikky_modoki:replacement_version=5\n", None), Err(ScriptError::BackupReplaced));
    let hash = script_hash(b"plain");
    assert_eq!(check_backup(b"plain", Some(&hash)), Ok(()));
}

#[test]
fn hashes_and_encodings_come_from_the_outside_crates() {
    assert_eq!(script_hash(b""), "2d06800538d394c2");
    assert_eq!(script_hash(b"a").len(), 16);
    assert_ne!(script_hash(b"a"), script_hash(b"b"));
    assert_eq!(to_sjis("あA"), vec![0x82, 0xa0, 0x41]);
    assert_eq!(decode_script(&[0x82, 0xa0]).ok(), Some("あ".to_string()));
    assert_eq!(decode_script(&[0x82]).err(), Some(ScriptError::InvalidShiftJis));
    assert_eq!(encode_script("あ").ok(), Some(vec![0x82, 0xa0]));
    assert_eq!(encode_script("😀").err(), Some(ScriptError::NotShiftJis));
    assert_eq!(convert_to_codes(&[0x82, 0xa0], true).ok(), Some(vec![0x3042]));
    assert_eq!(convert_to_codes(&[0x82, 0xa0], false).ok(), Some(vec![0xe3, 0x81, 0x82]));
    assert_eq!(convert_to_codes(&[0x82], true).err(), Some(CodesError::InvalidShiftJis));
    assert_eq!(convert_from_codes(&[0x3042], true).ok(), Some(vec![0x82, 0xa0]));
    assert_eq!(convert_from_codes(&[0xe3, 0x81, 0x82], false).ok(), Some(vec![0x82, 0xa0]));
    assert_eq!(convert_from_codes(&[0xd800], true).err(), Some(CodesError::InvalidUtf16));
    assert_eq!(convert_from_codes(&[0x100], false).err(), Some(CodesError::ByteOutOfRange));
    assert_eq!(convert_from_codes(&[0xff], false).err(), Some(CodesError::InvalidUtf8));
    assert_eq!(convert_from_codes(&[0xd83d, 0xde00], true).err(), Some(CodesError::NotShiftJis));
}
