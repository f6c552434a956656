use save_editor::error::SaveEditorError;
use save_editor::rewriter::substitute_header_key;

const EXAMPLE_HEADER: &str = r#"XLZF
Version:=0.91
Location:=ar_0000_WorldMap
SaveTime:=20210608T23:02:59+2
DataSize:=2597268
SaveDataSize:=672813
Hash:=
Indices:=74|45|-1|-1|-1|-1
Names:=
Levels:=26|22|22|21|22|21
Permadeath:=False
DifficultSkillChecks:=False
DLCReq:=2"#;

#[test]
fn test_header_value_substitution_works_as_expected() {
    let header = EXAMPLE_HEADER
        .as_bytes()
        .into_iter()
        .cloned()
        .collect::<Vec<_>>();

    assert_eq!(
        String::from_utf8(
            substitute_header_key(header, "DataSize".to_string(), "1".to_string(),).unwrap()
        )
        .unwrap()
        .as_str(),
        r#"XLZF
Version:=0.91
Location:=ar_0000_WorldMap
SaveTime:=20210608T23:02:59+2
DataSize:=1
SaveDataSize:=672813
Hash:=
Indices:=74|45|-1|-1|-1|-1
Names:=
Levels:=26|22|22|21|22|21
Permadeath:=False
DifficultSkillChecks:=False
DLCReq:=2"#,
    );
}

#[test]
fn rewrite_preserves_unrelated_lines() {
    let header = b"A:=1\nB:=2\nC:=3".to_vec();
    let out = substitute_header_key(header, "B".to_string(), "9".to_string()).unwrap();
    assert_eq!(out, b"A:=1\nB:=9\nC:=3".to_vec());
}

#[test]
fn rewrite_is_noop_on_absent_key() {
    let header = b"A:=1\nB:=2\nC:=3".to_vec();
    let out = substitute_header_key(header.clone(), "Missing".to_string(), "9".to_string())
        .unwrap();
    assert_eq!(out, header);
}

#[test]
fn rewrite_twice_gives_same_header_both_times() {
    let header = b"XLZF\nDataSize:=100\nSaveDataSize:=50".to_vec();
    let once = substitute_header_key(header, "SaveDataSize".to_string(), "55".to_string())
        .unwrap();
    let twice = substitute_header_key(once.clone(), "SaveDataSize".to_string(), "55".to_string())
        .unwrap();
    assert_eq!(once, twice);
    assert_eq!(once, b"XLZF\nDataSize:=100\nSaveDataSize:=55".to_vec());
}

#[test]
fn rewrite_rejects_header_that_is_not_utf8() {
    let header = vec![0x58, 0x0a, 0xff, 0xfe];
    let r = substitute_header_key(header, "X".to_string(), "1".to_string());
    assert!(matches!(r, Err(SaveEditorError::BadFormat)));
}

#[test]
fn rewrite_drops_only_a_trailing_newline() {
    // The output is the joined lines: one trailing newline is not kept.
    let header = b"A:=1\nB:=2\n".to_vec();
    let out = substitute_header_key(header, "B".to_string(), "7".to_string()).unwrap();
    assert_eq!(out, b"A:=1\nB:=7".to_vec());
}

#[test]
fn rewrite_matches_prefix_only_at_line_start() {
    // `DataSize` is not a prefix of `SaveDataSize`, so only the exact line
    // changes even though the key occurs inside the other line's text.
    let header = b"DataSize:=1\nSaveDataSize:=2".to_vec();
    let out = substitute_header_key(header, "DataSize".to_string(), "8".to_string()).unwrap();
    assert_eq!(out, b"DataSize:=8\nSaveDataSize:=2".to_vec());
}

#[test]
fn error_message_names_the_parse_failure() {
    assert_eq!(
        SaveEditorError::BadFormat.message(),
        "Failed to parse input file"
    );
}
