use jira_clone::codec::{decode_db, encode_db, encode_db_checked};
use jira_clone::db::{JiraDatabase, JiraDatabaseError};
use jira_clone::models::{Epic, Status, Story};

#[test]
fn empty_store_round_trips() {
    let db = JiraDatabase::new();
    let state = db.read_db().unwrap();
    let text = encode_db(&state);
    let back = decode_db(&text).unwrap();
    assert_eq!(back, state);
}

#[test]
fn populated_store_round_trips() {
    let mut db = JiraDatabase::new();
    let e1 = db
        .create_epic(Epic::new("first epic".to_owned(), "with; semicolons".to_owned()))
        .unwrap();
    let e2 = db
        .create_epic(Epic::new("".to_owned(), "empty name".to_owned()))
        .unwrap();
    let s1 = db
        .create_story(Story::new("a story".to_owned(), "1;2;3".to_owned()), e1)
        .unwrap();
    let _s2 = db
        .create_story(Story::new("another".to_owned(), "".to_owned()), e2)
        .unwrap();
    db.update_epic_status(e1, Status::InProgress).unwrap();
    db.update_story_status(s1, Status::Closed).unwrap();

    let state = db.read_db().unwrap();
    let text = encode_db(&state);
    let back = decode_db(&text).unwrap();
    assert_eq!(back, state);
    assert_eq!(back.epics.get(e1).unwrap().status, Status::InProgress);
    assert_eq!(back.stories.get(s1).unwrap().status, Status::Closed);
}

#[test]
fn checked_encoding_accepts_ordinary_stores() {
    let mut db = JiraDatabase::new();
    db.create_epic(Epic::new("e".to_owned(), "d".to_owned()))
        .unwrap();
    let state = db.read_db().unwrap();
    let text = encode_db_checked(&state).unwrap();
    assert_eq!(decode_db(&text).unwrap(), state);
}

#[test]
fn malformed_text_is_a_read_failure() {
    assert_eq!(decode_db("").unwrap_err(), JiraDatabaseError::Read);
    assert_eq!(decode_db("garbage").unwrap_err(), JiraDatabaseError::Read);
    assert_eq!(decode_db("0;0;0;x").unwrap_err(), JiraDatabaseError::Read);
    assert_eq!(decode_db("0;0;").unwrap_err(), JiraDatabaseError::Read);
    // ids out of order are rejected
    assert_eq!(
        decode_db("2;2;2;0;0;o0;1;0;0;o0;0;").unwrap_err(),
        JiraDatabaseError::Read
    );
}

#[test]
fn decoding_is_strict_about_trailing_text() {
    let db = JiraDatabase::new();
    let state = db.read_db().unwrap();
    let mut text = encode_db(&state);
    assert!(decode_db(&text).is_ok());
    text.push(' ');
    assert_eq!(decode_db(&text).unwrap_err(), JiraDatabaseError::Read);
}
