use rikky_modoki::paths::{dir_mode, entry_matches, keeps_extension, script_file_name, DirMode};

fn filters(list: &[&str]) -> Vec<String> {
    list.iter().map(|s| s.to_string()).collect()
}

#[test]
fn a_script_lives_in_the_file_after_its_last_at() {
    assert_eq!(script_file_name("ぼかし", "anm2"), "ぼかし.anm2");
    assert_eq!(script_file_name("name@pack", "anm2"), "@pack.anm2");
    assert_eq!(script_file_name("a@b@pack", "obj2"), "@pack.obj2");
    assert_eq!(script_file_name("name@", "anm2"), "@.anm2");
}

#[test]
fn the_first_filter_chooses_the_listing_mode() {
    assert_eq!(dir_mode(&filters(&[])), None);
    assert_eq!(dir_mode(&filters(&[""])), Some(DirMode::Folders));
    assert_eq!(dir_mode(&filters(&["*all", "png"])), Some(DirMode::AllFiles));
    assert_eq!(dir_mode(&filters(&["*.png"])), Some(DirMode::Extensions));
}

#[test]
fn extensions_match_ignoring_case_and_leading_wildcards() {
    let f = filters(&["*.PNG", ".jpg", "bmp", "*.*.gif"]);
    assert!(entry_matches(DirMode::Extensions, &f, false, true, Some("png")));
    assert!(entry_matches(DirMode::Extensions, &f, false, true, Some("JPG")));
    assert!(entry_matches(DirMode::Extensions, &f, false, true, Some("Bmp")));
    assert!(entry_matches(DirMode::Extensions, &f, false, true, Some("gif")));
    assert!(!entry_matches(DirMode::Extensions, &f, false, true, Some("pngx")));
    assert!(!entry_matches(DirMode::Extensions, &f, false, true, None));
    assert!(!entry_matches(DirMode::Extensions, &f, true, false, Some("png")));
}

#[test]
fn folder_and_all_file_modes_ignore_extensions() {
    let f = filters(&[""]);
    assert!(entry_matches(DirMode::Folders, &f, true, false, None));
    assert!(!entry_matches(DirMode::Folders, &f, false, true, Some("png")));
    assert!(entry_matches(DirMode::AllFiles, &f, false, true, None));
    assert!(!entry_matches(DirMode::AllFiles, &f, true, false, None));
}

#[test]
fn an_export_keeps_an_extension_that_names_its_format() {
    assert!(keeps_extension(Some("PNG"), "png"));
    assert!(keeps_extension(Some("jpeg"), "jpg"));
    assert!(keeps_extension(Some("JPG"), "jpg"));
    assert!(!keeps_extension(Some("jpeg"), "png"));
    assert!(!keeps_extension(Some("jpg"), "jpeg"));
    assert!(!keeps_extension(Some("txt"), "png"));
    assert!(!keeps_extension(None, "png"));
}
