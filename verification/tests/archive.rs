use strategy_discovery::discovery::archive::{
    append_entry, check_archive_game, check_index_agrees, entry_id, find_entry, Appended,
};
use strategy_discovery::discovery::config::CorpusError;
use strategy_discovery::io::schema::{ArchiveIndexEntry, IoError};

fn s(x: &str) -> String {
    x.to_string()
}

#[test]
fn open_append_duplicate_and_reopen_round_trip() {
    let mut index: Vec<ArchiveIndexEntry> = Vec::new();
    let id_a = entry_id(br#"{"game":"testgame","spec":{"minimax":{"depth":9}},"evaluation_id":"aaaaaaaaaaaaaaaa"}"#);
    assert_eq!(id_a.len(), 16);

    let appended = append_entry(&mut index, id_a.clone(), s("a"), s("minimax"));
    assert_eq!(appended, Appended::New(id_a.clone()));
    let before = index.clone();

    let appended_again = append_entry(&mut index, id_a.clone(), s("a"), s("minimax"));
    assert_eq!(appended_again, Appended::Duplicate(id_a.clone()));
    assert_eq!(index, before);
    assert_eq!(index.len(), 1);

    let id_b = entry_id(br#"{"game":"testgame","spec":"random","evaluation_id":"cccccccccccccccc"}"#);
    assert_ne!(id_a, id_b);
    assert_eq!(append_entry(&mut index, id_b.clone(), s("b"), s("random")), Appended::New(id_b.clone()));
    assert_eq!(index.len(), 2);
    let b = find_entry(&index, &id_b).unwrap();
    assert_eq!(index[b].sequence, 1);
    assert_eq!(index[b].name, "b");
    assert_eq!(find_entry(&index, &id_a), Some(0));
    assert_eq!(find_entry(&index, "0000000000000000"), None);

    let stored: Vec<(String, usize)> = index.iter().map(|e| (e.entry_id.clone(), e.sequence)).collect();
    assert_eq!(check_index_agrees(&index, &stored, "arch/archive.json", "arch/entries.jsonl"), Ok(()));
}

#[test]
fn open_rejects_another_game() {
    let err = check_archive_game("arch", "testgame", "othergame").unwrap_err();
    assert!(matches!(&err, CorpusError::Config(msg) if msg.contains("belongs to game `testgame`")));
    assert_eq!(err, CorpusError::Config(s("archive at arch belongs to game `testgame`, not `othergame`")));
    assert_eq!(check_archive_game("arch", "testgame", "testgame"), Ok(()));
}

#[test]
fn entry_id_is_the_digest_of_the_key() {
    assert_eq!(entry_id(b""), "cbf29ce484222325");
    assert_eq!(entry_id(br#"{"a":1}"#), "9c3e82dd6fcae8b1");
}

#[test]
fn index_and_entries_that_disagree_are_refused() {
    let index = vec![ArchiveIndexEntry { entry_id: s("x"), name: s("a"), kind: s("random"), sequence: 0 }];
    let expected = CorpusError::Io(IoError::Invalid(s("archive index at i does not agree with entries at e")));
    assert_eq!(check_index_agrees(&index, &[], "i", "e"), Err(expected.clone()));
    assert_eq!(check_index_agrees(&index, &[(s("y"), 0)], "i", "e"), Err(expected.clone()));
    assert_eq!(check_index_agrees(&index, &[(s("x"), 1)], "i", "e"), Err(expected));
    assert_eq!(check_index_agrees(&index, &[(s("x"), 0)], "i", "e"), Ok(()));
}
