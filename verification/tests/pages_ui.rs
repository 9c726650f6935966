use jira_clone::db::JiraDatabase;
use jira_clone::models::{Action, Epic, Story};
use jira_clone::pages::{EpicDetail, HomePage, StoryDetail};
use jira_clone::page_helpers::get_column_string;

#[test]
fn draw_page_should_not_throw_error() {
    let db = JiraDatabase::new();

    let page = HomePage {};
    assert_eq!(page.draw_page(&db).is_ok(), true);
}

#[test]
fn handle_input_should_not_throw_error() {
    let db = JiraDatabase::new();

    let page = HomePage {};
    assert_eq!(page.handle_input(&db, "").is_ok(), true);
}

#[test]
fn handle_input_should_return_the_correct_actions() {
    let mut db = JiraDatabase::new();

    let epic = Epic::new("".to_owned(), "".to_owned());

    let epic_id = db.create_epic(epic).unwrap();

    let page = HomePage {};

    let q = "q";
    let c = "c";
    let valid_epic_id = epic_id.to_string();
    let invalid_epic_id = "999";
    let junk_input = "j983f2j";

    assert_eq!(page.handle_input(&db, q).unwrap(), Some(Action::Exit));
    assert_eq!(page.handle_input(&db, c).unwrap(), Some(Action::CreateEpic));
    assert_eq!(
        page.handle_input(&db, &valid_epic_id).unwrap(),
        Some(Action::NavigateToEpicDetail { epic_id: 1 })
    );
    assert_eq!(page.handle_input(&db, invalid_epic_id).unwrap(), None);
    assert_eq!(page.handle_input(&db, junk_input).unwrap(), None);
}

#[test]
fn mod_draw_page_should_not_throw_error() {
    let mut db = JiraDatabase::new();
    let epic_id = db
        .create_epic(Epic::new("".to_owned(), "".to_owned()))
        .unwrap();

    let page = EpicDetail { epic_id };
    assert_eq!(page.draw_page(&db).is_ok(), true);
}

#[test]
fn mod_handle_input_should_not_throw_error() {
    let mut db = JiraDatabase::new();
    let epic_id = db
        .create_epic(Epic::new("".to_owned(), "".to_owned()))
        .unwrap();

    let page = EpicDetail { epic_id };
    assert_eq!(page.handle_input(&db, "").is_ok(), true);
}

#[test]
fn draw_page_should_throw_error_for_invalid_epic_id() {
    let db = JiraDatabase::new();

    let page = EpicDetail { epic_id: 999 };
    assert_eq!(page.draw_page(&db).is_err(), true);
}

#[test]
fn mod_handle_input_should_return_the_correct_actions() {
    let mut db = JiraDatabase::new();

    let epic_id = db
        .create_epic(Epic::new("".to_owned(), "".to_owned()))
        .unwrap();
    let story_id = db
        .create_story(Story::new("".to_owned(), "".to_owned()), epic_id)
        .unwrap();

    let page = EpicDetail { epic_id };

    let p = "p";
    let u = "u";
    let d = "d";
    let c = "c";
    let invalid_story_id = "999";
    let junk_input = "j983f2j";

    assert_eq!(
        page.handle_input(&db, p).unwrap(),
        Some(Action::NavigateToPreviousPage)
    );
    assert_eq!(
        page.handle_input(&db, u).unwrap(),
        Some(Action::UpdateEpicStatus { epic_id: 1 })
    );
    assert_eq!(
        page.handle_input(&db, d).unwrap(),
        Some(Action::DeleteEpic { epic_id: 1 })
    );
    assert_eq!(
        page.handle_input(&db, c).unwrap(),
        Some(Action::CreateStory { epic_id: 1 })
    );
    assert_eq!(
        page.handle_input(&db, &story_id.to_string()).unwrap(),
        Some(Action::NavigateToStoryDetail {
            epic_id: 1,
            story_id: 2
        })
    );
    assert_eq!(page.handle_input(&db, invalid_story_id).unwrap(), None);
    assert_eq!(page.handle_input(&db, junk_input).unwrap(), None);
}

#[test]
fn story_draw_page_should_not_throw_error() {
    let mut db = JiraDatabase::new();

    let epic_id = db
        .create_epic(Epic::new("".to_owned(), "".to_owned()))
        .unwrap();
    let story_id = db
        .create_story(Story::new("".to_owned(), "".to_owned()), epic_id)
        .unwrap();

    let page = StoryDetail { epic_id, story_id };
    assert_eq!(page.draw_page(&db).is_ok(), true);
}

#[test]
fn story_handle_input_should_not_throw_error() {
    let mut db = JiraDatabase::new();

    let epic_id = db
        .create_epic(Epic::new("".to_owned(), "".to_owned()))
        .unwrap();
    let story_id = db
        .create_story(Story::new("".to_owned(), "".to_owned()), epic_id)
        .unwrap();

    let page = StoryDetail { epic_id, story_id };
    assert_eq!(page.handle_input(&db, "").is_ok(), true);
}

#[test]
fn draw_page_should_throw_error_for_invalid_story_id() {
    let mut db = JiraDatabase::new();

    let epic_id = db
        .create_epic(Epic::new("".to_owned(), "".to_owned()))
        .unwrap();
    let _ = db
        .create_story(Story::new("".to_owned(), "".to_owned()), epic_id)
        .unwrap();

    let page = StoryDetail {
        epic_id,
        story_id: 999,
    };
    assert_eq!(page.draw_page(&db).is_err(), true);
}

#[test]
fn story_handle_input_should_return_the_correct_actions() {
    let mut db = JiraDatabase::new();

    let epic_id = db
        .create_epic(Epic::new("".to_owned(), "".to_owned()))
        .unwrap();
    let story_id = db
        .create_story(Story::new("".to_owned(), "".to_owned()), epic_id)
        .unwrap();

    let page = StoryDetail { epic_id, story_id };

    let p = "p";
    let u = "u";
    let d = "d";
    let some_number = "1";
    let junk_input = "j983f2j";

    assert_eq!(
        page.handle_input(&db, p).unwrap(),
        Some(Action::NavigateToPreviousPage)
    );
    assert_eq!(
        page.handle_input(&db, u).unwrap(),
        Some(Action::UpdateStoryStatus { story_id })
    );
    assert_eq!(
        page.handle_input(&db, d).unwrap(),
        Some(Action::DeleteStory { epic_id, story_id })
    );
    assert_eq!(page.handle_input(&db, some_number).unwrap(), None);
    assert_eq!(page.handle_input(&db, junk_input).unwrap(), None);
}

#[test]
fn test_get_column_string() {
    let text1 = "";
    let text2 = "test";
    let text3 = "testme";
    let text4 = "testmetest";

    let width = 0;

    assert_eq!(get_column_string(text4, width), "".to_owned());

    let width = 1;

    assert_eq!(get_column_string(text4, width), ".".to_owned());

    let width = 2;

    assert_eq!(get_column_string(text4, width), "..".to_owned());

    let width = 3;

    assert_eq!(get_column_string(text4, width), "...".to_owned());

    let width = 4;

    assert_eq!(get_column_string(text4, width), "t...".to_owned());

    let width = 6;

    assert_eq!(get_column_string(text1, width), "      ".to_owned());
    assert_eq!(get_column_string(text2, width), "test  ".to_owned());
    assert_eq!(get_column_string(text3, width), "testme".to_owned());
    assert_eq!(get_column_string(text4, width), "tes...".to_owned());
}

#[test]
fn home_page_lists_epics_in_ascending_id_order() {
    let mut db = JiraDatabase::new();
    let e1 = db
        .create_epic(Epic::new("alpha".to_owned(), "".to_owned()))
        .unwrap();
    let e2 = db
        .create_epic(Epic::new("beta".to_owned(), "".to_owned()))
        .unwrap();
    assert_eq!((e1, e2), (1, 2));

    let text = HomePage {}.draw_page(&db).unwrap();
    let expected = "----------------------------- EPICS -----------------------------\n     id     |               name               |      status      \n1|alpha|OPEN\n2|beta|OPEN\n\n\n[q] quit | [c] create epic | [:id:] navigate to epic\n";
    assert_eq!(text, expected);
}

#[test]
fn epic_page_lists_only_its_own_stories() {
    let mut db = JiraDatabase::new();
    let e1 = db
        .create_epic(Epic::new("one".to_owned(), "first".to_owned()))
        .unwrap();
    let e2 = db
        .create_epic(Epic::new("two".to_owned(), "second".to_owned()))
        .unwrap();
    let s1 = db
        .create_story(Story::new("mine".to_owned(), "".to_owned()), e1)
        .unwrap();
    let _s2 = db
        .create_story(Story::new("other".to_owned(), "".to_owned()), e2)
        .unwrap();

    let text = EpicDetail { epic_id: e1 }.draw_page(&db).unwrap();
    let expected = "------------------------------ EPIC ------------------------------\n  id  |     name     |         description         |    status    \n1|one|first|OPEN\n\n---------------------------- STORIES ----------------------------\n     id     |               name               |      status      \n3|mine|OPEN\n\n\n[p] previous | [u] update epic | [d] delete epic | [c] create story | [:id:] navigate to story\n";
    assert_eq!(s1, 3);
    assert_eq!(text, expected);
}

#[test]
fn story_page_shows_the_story_fields() {
    let mut db = JiraDatabase::new();
    let epic_id = db
        .create_epic(Epic::new("e".to_owned(), "".to_owned()))
        .unwrap();
    let story_id = db
        .create_story(Story::new("sn".to_owned(), "sd".to_owned()), epic_id)
        .unwrap();

    let text = StoryDetail { epic_id, story_id }.draw_page(&db).unwrap();
    let expected = "------------------------------ STORY ------------------------------\n  id  |     name     |         description         |    status    \n1|sn|sd|OPEN\n\n\n[p] previous | [u] update story | [d] delete story\n";
    assert_eq!(text, expected);
}
