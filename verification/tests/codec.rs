use gotors::codec::decode;
use gotors::codec::encode;
use gotors::codec::encode_line;
use gotors::codec::ParseError;

#[test]
fn empty_text_decodes_to_empty_store() {
    let store = decode("").unwrap();
    assert_eq!(store.list().len(), 0);
}

#[test]
fn malformed_line_fails_whole_decode() {
    let r = decode("justtext");
    assert!(matches!(r, Err(ParseError::MalformedLine)));
    let r = decode("justtext\n");
    assert!(matches!(r, Err(ParseError::MalformedLine)));
}

#[test]
fn malformed_line_poisons_well_formed_neighbours() {
    let r = decode("good:/path\nbroken\nalso:/fine\n");
    assert!(matches!(r, Err(ParseError::MalformedLine)));
}

#[test]
fn decode_reads_name_and_path() {
    let store = decode("proj:/home/alice/project\n").unwrap();
    let entries = store.list();
    assert_eq!(entries.len(), 1);
    assert_eq!(entries[0].name, "proj");
    assert_eq!(entries[0].path, "/home/alice/project");
}

#[test]
fn decode_splits_at_first_separator_only() {
    let store = decode("name:/with:colon\n").unwrap();
    let entries = store.list();
    assert_eq!(entries[0].name, "name");
    assert_eq!(entries[0].path, "/with:colon");
}

#[test]
fn decode_accepts_empty_name_and_empty_path() {
    let store = decode(":justpath\nnopath:\n").unwrap();
    let entries = store.list();
    assert_eq!(entries.len(), 2);
    assert_eq!(entries[0].name, "");
    assert_eq!(entries[0].path, "justpath");
    assert_eq!(entries[1].name, "nopath");
    assert_eq!(entries[1].path, "");
}

#[test]
fn decode_ignores_empty_lines() {
    let store = decode("a:/x\n\nb:/y\n").unwrap();
    assert_eq!(store.list().len(), 2);
}

#[test]
fn decode_accepts_missing_final_newline() {
    let store = decode("a:/x\nb:/y").unwrap();
    assert_eq!(store.list().len(), 2);
    assert_eq!(store.list()[1].path, "/y");
}

#[test]
fn duplicate_names_fold_last_wins() {
    let store = decode("n:/p1\nn:/p2\n").unwrap();
    let entries = store.list();
    assert_eq!(entries.len(), 1);
    assert_eq!(entries[0].name, "n");
    assert_eq!(entries[0].path, "/p2");
}

#[test]
fn duplicate_keeps_first_position_and_last_path() {
    let store = decode("n:/1\nm:/2\nn:/3\n").unwrap();
    let entries = store.list();
    assert_eq!(entries.len(), 2);
    assert_eq!(entries[0].name, "n");
    assert_eq!(entries[0].path, "/3");
    assert_eq!(entries[1].name, "m");
    assert_eq!(entries[1].path, "/2");
}

#[test]
fn encode_emits_one_line_per_entry_in_order() {
    let store = decode("b:/2\na:/1\n").unwrap();
    assert_eq!(encode(&store), "b:/2\na:/1\n");
}

#[test]
fn encode_of_empty_store_is_empty() {
    let store = decode("").unwrap();
    assert_eq!(encode(&store), "");
}

#[test]
fn round_trip_preserves_entries() {
    let text = "alpha:/home/a\nbeta:/home/b with space\ngamma:/c:colon\n";
    let store = decode(text).unwrap();
    let reencoded = encode(&store);
    assert_eq!(reencoded, text);
    let again = decode(&reencoded).unwrap();
    let before = store.list();
    let after = again.list();
    assert_eq!(before.len(), after.len());
    for i in 0..before.len() {
        assert_eq!(before[i].name, after[i].name);
        assert_eq!(before[i].path, after[i].path);
    }
}

#[test]
fn encode_line_appends_separator_and_newline() {
    assert_eq!(encode_line("proj", "/home/alice/project"), "proj:/home/alice/project\n");
    assert_eq!(encode_line("", ""), ":\n");
}
