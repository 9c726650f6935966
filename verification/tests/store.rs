use jira_clone::db::{JiraDatabase, JiraDatabaseError};
use jira_clone::models::{Epic, Status, Story};

#[test]
fn create_epic_should_work() {
    let mut db = JiraDatabase::new();
    let epic = Epic::new("".to_owned(), "".to_owned());

    let result = db.create_epic(epic.clone());

    assert_eq!(result.is_ok(), true);

    let id = result.unwrap();
    let db_state = db.read_db().unwrap();

    let expected_id = 1;

    assert_eq!(id, expected_id);
    assert_eq!(db_state.last_item_id, expected_id);
    assert_eq!(db_state.epics.get(id), Some(&epic));
}

#[test]
fn create_story_should_error_if_invalid_epic_id() {
    let mut db = JiraDatabase::new();
    let story = Story::new("".to_owned(), "".to_owned());

    let non_existent_epic_id = 999;

    let result = db.create_story(story, non_existent_epic_id);
    assert_eq!(result.is_err(), true);
}

#[test]
fn create_story_should_work() {
    let mut db = JiraDatabase::new();
    let epic = Epic::new("".to_owned(), "".to_owned());
    let story = Story::new("".to_owned(), "".to_owned());

    let result = db.create_epic(epic);
    assert_eq!(result.is_ok(), true);

    let epic_id = result.unwrap();

    let result = db.create_story(story.clone(), epic_id);
    assert_eq!(result.is_ok(), true);

    let id = result.unwrap();
    let db_state = db.read_db().unwrap();

    let expected_id = 2;

    assert_eq!(id, expected_id);
    assert_eq!(db_state.last_item_id, expected_id);
    assert_eq!(
        db_state.epics.get(epic_id).unwrap().stories.contains(&id),
        true
    );
    assert_eq!(db_state.stories.get(id), Some(&story));
}

#[test]
fn delete_epic_should_error_if_invalid_epic_id() {
    let mut db = JiraDatabase::new();

    let non_existent_epic_id = 999;

    let result = db.delete_epic(non_existent_epic_id);
    assert_eq!(result.is_err(), true);
}

#[test]
fn delete_epic_should_work() {
    let mut db = JiraDatabase::new();
    let epic = Epic::new("".to_owned(), "".to_owned());
    let story = Story::new("".to_owned(), "".to_owned());

    let result = db.create_epic(epic);
    assert_eq!(result.is_ok(), true);

    let epic_id = result.unwrap();

    let result = db.create_story(story, epic_id);
    assert_eq!(result.is_ok(), true);

    let story_id = result.unwrap();

    let result = db.delete_epic(epic_id);
    assert_eq!(result.is_ok(), true);

    let db_state = db.read_db().unwrap();

    let expected_last_id = 2;

    assert_eq!(db_state.last_item_id, expected_last_id);
    assert_eq!(db_state.epics.get(epic_id), None);
    assert_eq!(db_state.stories.get(story_id), None);
}

#[test]
fn delete_story_should_error_if_invalid_epic_id() {
    let mut db = JiraDatabase::new();
    let epic = Epic::new("".to_owned(), "".to_owned());
    let story = Story::new("".to_owned(), "".to_owned());

    let result = db.create_epic(epic);
    assert_eq!(result.is_ok(), true);

    let epic_id = result.unwrap();

    let result = db.create_story(story, epic_id);
    assert_eq!(result.is_ok(), true);

    let story_id = result.unwrap();

    let non_existent_epic_id = 999;

    let result = db.delete_story(non_existent_epic_id, story_id);
    assert_eq!(result.is_err(), true);
}

#[test]
fn delete_story_should_error_if_story_not_found_in_epic() {
    let mut db = JiraDatabase::new();
    let epic = Epic::new("".to_owned(), "".to_owned());
    let story = Story::new("".to_owned(), "".to_owned());

    let result = db.create_epic(epic);
    assert_eq!(result.is_ok(), true);

    let epic_id = result.unwrap();

    let result = db.create_story(story, epic_id);
    assert_eq!(result.is_ok(), true);

    let non_existent_story_id = 999;

    let result = db.delete_story(epic_id, non_existent_story_id);
    assert_eq!(result.is_err(), true);
}

#[test]
fn delete_story_should_work() {
    let mut db = JiraDatabase::new();
    let epic = Epic::new("".to_owned(), "".to_owned());
    let story = Story::new("".to_owned(), "".to_owned());

    let result = db.create_epic(epic);
    assert_eq!(result.is_ok(), true);

    let epic_id = result.unwrap();

    let result = db.create_story(story, epic_id);
    assert_eq!(result.is_ok(), true);

    let story_id = result.unwrap();

    let result = db.delete_story(epic_id, story_id);
    assert_eq!(result.is_ok(), true);

    let db_state = db.read_db().unwrap();

    let expected_last_id = 2;

    assert_eq!(db_state.last_item_id, expected_last_id);
    assert_eq!(
        db_state
            .epics
            .get(epic_id)
            .unwrap()
            .stories
            .contains(&story_id),
        false
    );
    assert_eq!(db_state.stories.get(story_id), None);
}

#[test]
fn update_epic_status_should_error_if_invalid_epic_id() {
    let mut db = JiraDatabase::new();

    let non_existent_epic_id = 999;

    let result = db.update_epic_status(non_existent_epic_id, Status::Closed);
    assert_eq!(result.is_err(), true);
}

#[test]
fn update_epic_status_should_work() {
    let mut db = JiraDatabase::new();
    let epic = Epic::new("".to_owned(), "".to_owned());

    let result = db.create_epic(epic);

    assert_eq!(result.is_ok(), true);

    let epic_id = result.unwrap();

    let result = db.update_epic_status(epic_id, Status::Closed);

    assert_eq!(result.is_ok(), true);

    let db_state = db.read_db().unwrap();

    assert_eq!(db_state.epics.get(epic_id).unwrap().status, Status::Closed);
}

#[test]
fn update_story_status_should_error_if_invalid_story_id() {
    let mut db = JiraDatabase::new();

    let non_existent_story_id = 999;

    let result = db.update_story_status(non_existent_story_id, Status::Closed);
    assert_eq!(result.is_err(), true);
}

#[test]
fn update_story_status_should_work() {
    let mut db = JiraDatabase::new();
    let epic = Epic::new("".to_owned(), "".to_owned());
    let story = Story::new("".to_owned(), "".to_owned());

    let result = db.create_epic(epic);

    let epic_id = result.unwrap();

    let result = db.create_story(story, epic_id);

    let story_id = result.unwrap();

    let result = db.update_story_status(story_id, Status::Closed);

    assert_eq!(result.is_ok(), true);

    let db_state = db.read_db().unwrap();

    assert_eq!(
        db_state.stories.get(story_id).unwrap().status,
        Status::Closed
    );
}

#[test]
fn create_epic_ids_increase_by_one() {
    let mut db = JiraDatabase::new();
    let mut previous = 0;
    for _ in 0..5 {
        let id = db
            .create_epic(Epic::new("e".to_owned(), "d".to_owned()))
            .unwrap();
        assert_eq!(id, previous + 1);
        assert_eq!(db.read_db().unwrap().last_item_id, id);
        previous = id;
    }
}

#[test]
fn failed_create_story_leaves_state_untouched() {
    let mut db = JiraDatabase::new();
    let epic_id = db
        .create_epic(Epic::new("e".to_owned(), "d".to_owned()))
        .unwrap();
    let _ = db
        .create_story(Story::new("s".to_owned(), "sd".to_owned()), epic_id)
        .unwrap();

    let before = db.read_db().unwrap();
    let result = db.create_story(Story::new("x".to_owned(), "y".to_owned()), 999);
    assert_eq!(result.unwrap_err(), JiraDatabaseError::NoEpicWithID);
    let after = db.read_db().unwrap();
    assert_eq!(before, after);
}

#[test]
fn delete_epic_cascades_only_to_its_own_stories() {
    let mut db = JiraDatabase::new();
    let e1 = db
        .create_epic(Epic::new("one".to_owned(), "".to_owned()))
        .unwrap();
    let e2 = db
        .create_epic(Epic::new("two".to_owned(), "".to_owned()))
        .unwrap();
    let s1 = db
        .create_story(Story::new("a".to_owned(), "".to_owned()), e1)
        .unwrap();
    let s2 = db
        .create_story(Story::new("b".to_owned(), "".to_owned()), e2)
        .unwrap();

    db.delete_epic(e1).unwrap();

    let state = db.read_db().unwrap();
    assert_eq!(state.epics.get(e1), None);
    assert_eq!(state.stories.get(s1), None);
    assert!(state.epics.get(e2).is_some());
    assert!(state.stories.get(s2).is_some());
    assert_eq!(state.epics.get(e2).unwrap().stories, vec![s2]);
}

#[test]
fn delete_story_rejects_story_listed_under_other_epic() {
    let mut db = JiraDatabase::new();
    let e1 = db
        .create_epic(Epic::new("one".to_owned(), "".to_owned()))
        .unwrap();
    let e2 = db
        .create_epic(Epic::new("two".to_owned(), "".to_owned()))
        .unwrap();
    let s2 = db
        .create_story(Story::new("b".to_owned(), "".to_owned()), e2)
        .unwrap();

    let result = db.delete_story(e1, s2);
    assert_eq!(result.unwrap_err(), JiraDatabaseError::NoStoryWithID);
    assert!(db.read_db().unwrap().stories.get(s2).is_some());
}

#[test]
fn update_status_changes_only_the_status_field() {
    let mut db = JiraDatabase::new();
    let epic_id = db
        .create_epic(Epic::new("name".to_owned(), "desc".to_owned()))
        .unwrap();
    let story_id = db
        .create_story(Story::new("sname".to_owned(), "sdesc".to_owned()), epic_id)
        .unwrap();

    db.update_epic_status(epic_id, Status::InProgress).unwrap();
    db.update_story_status(story_id, Status::Resolved).unwrap();

    let state = db.read_db().unwrap();
    let epic = state.epics.get(epic_id).unwrap();
    assert_eq!(epic.name, "name");
    assert_eq!(epic.description, "desc");
    assert_eq!(epic.stories, vec![story_id]);
    assert_eq!(epic.status, Status::InProgress);
    let story = state.stories.get(story_id).unwrap();
    assert_eq!(story.name, "sname");
    assert_eq!(story.description, "sdesc");
    assert_eq!(story.status, Status::Resolved);
}

#[test]
fn create_then_delete_story_scenario() {
    let mut db = JiraDatabase::new();
    let epic_id = db
        .create_epic(Epic::new("".to_owned(), "".to_owned()))
        .unwrap();
    assert_eq!(epic_id, 1);
    let story_id = db
        .create_story(Story::new("".to_owned(), "".to_owned()), epic_id)
        .unwrap();
    assert_eq!(story_id, 2);

    let state = db.read_db().unwrap();
    assert_eq!(state.epics.get(1).unwrap().stories, vec![2]);

    db.delete_story(1, 2).unwrap();

    let state = db.read_db().unwrap();
    assert_eq!(state.stories.get(2), None);
    assert_eq!(state.epics.get(1).unwrap().stories, Vec::<u32>::new());
}

#[test]
fn error_messages_name_the_failure() {
    assert_eq!(JiraDatabaseError::Read.message(), "Failed to read Jira database.");
    assert_eq!(JiraDatabaseError::Write.message(), "Failed to write Jira database.");
    assert_eq!(JiraDatabaseError::NoEpicWithID.message(), "No Epic with ID found.");
    assert_eq!(JiraDatabaseError::NoStoryWithID.message(), "No Story with ID found.");
}
