use jira_clone::db::{JiraDatabase, JiraDatabaseError};
use jira_clone::models::{Action, Epic, Status, Story};
use jira_clone::navigator::{Navigator, NavigationError, Page, PromptReply, PromptRequest, prompt_for};
use jira_clone::prompts::{parse_confirmation, parse_status_choice};
use jira_clone::text::{parse_u32, u32_to_string};

#[test]
fn navigator_starts_on_the_home_page() {
    let nav = Navigator::new();
    assert_eq!(nav.depth(), 1);
    assert!(matches!(nav.get_current_page(), Some(Page::Home(_))));
}

#[test]
fn navigate_to_epic_and_back_returns_to_home() {
    let mut nav = Navigator::new();
    let mut db = JiraDatabase::new();
    let _ = db
        .create_epic(Epic::new("".to_owned(), "".to_owned()))
        .unwrap();

    nav.handle_action(
        &mut db,
        Action::NavigateToEpicDetail { epic_id: 1 },
        PromptReply::Nothing,
    )
    .unwrap();
    assert_eq!(nav.depth(), 2);
    assert!(matches!(nav.get_current_page(), Some(Page::Epic(_))));

    nav.handle_action(&mut db, Action::NavigateToPreviousPage, PromptReply::Nothing)
        .unwrap();
    assert_eq!(nav.depth(), 1);
    assert!(matches!(nav.get_current_page(), Some(Page::Home(_))));
}

#[test]
fn exit_empties_the_stack_from_any_depth() {
    let mut nav = Navigator::new();
    let mut db = JiraDatabase::new();

    nav.handle_action(
        &mut db,
        Action::NavigateToEpicDetail { epic_id: 7 },
        PromptReply::Nothing,
    )
    .unwrap();
    nav.handle_action(
        &mut db,
        Action::NavigateToStoryDetail {
            epic_id: 7,
            story_id: 8,
        },
        PromptReply::Nothing,
    )
    .unwrap();
    assert_eq!(nav.depth(), 3);

    nav.handle_action(&mut db, Action::Exit, PromptReply::Nothing)
        .unwrap();
    assert_eq!(nav.depth(), 0);
    assert!(nav.get_current_page().is_none());
}

#[test]
fn create_actions_reach_the_store() {
    let mut nav = Navigator::new();
    let mut db = JiraDatabase::new();

    nav.handle_action(
        &mut db,
        Action::CreateEpic,
        PromptReply::NewEpic(Epic::new("e".to_owned(), "".to_owned())),
    )
    .unwrap();
    nav.handle_action(
        &mut db,
        Action::CreateStory { epic_id: 1 },
        PromptReply::NewStory(Story::new("s".to_owned(), "".to_owned())),
    )
    .unwrap();
    assert_eq!(nav.depth(), 1);

    let state = db.read_db().unwrap();
    assert_eq!(state.last_item_id, 2);
    assert_eq!(state.epics.get(1).unwrap().stories, vec![2]);
    assert!(state.stories.get(2).is_some());
}

#[test]
fn store_failures_become_navigation_failures() {
    let mut nav = Navigator::new();
    let mut db = JiraDatabase::new();

    let result = nav.handle_action(
        &mut db,
        Action::CreateStory { epic_id: 999 },
        PromptReply::NewStory(Story::new("s".to_owned(), "".to_owned())),
    );
    assert_eq!(
        result.unwrap_err(),
        NavigationError::Store(JiraDatabaseError::NoEpicWithID)
    );
    assert_eq!(nav.depth(), 1);
}

#[test]
fn confirmed_deletion_pops_the_current_page() {
    let mut nav = Navigator::new();
    let mut db = JiraDatabase::new();
    let epic_id = db
        .create_epic(Epic::new("".to_owned(), "".to_owned()))
        .unwrap();

    nav.handle_action(
        &mut db,
        Action::NavigateToEpicDetail { epic_id },
        PromptReply::Nothing,
    )
    .unwrap();
    nav.handle_action(
        &mut db,
        Action::DeleteEpic { epic_id },
        PromptReply::Confirmed(true),
    )
    .unwrap();

    assert_eq!(nav.depth(), 1);
    assert!(db.read_db().unwrap().epics.get(epic_id).is_none());
}

#[test]
fn declined_deletion_changes_nothing() {
    let mut nav = Navigator::new();
    let mut db = JiraDatabase::new();
    let epic_id = db
        .create_epic(Epic::new("".to_owned(), "".to_owned()))
        .unwrap();

    nav.handle_action(
        &mut db,
        Action::NavigateToEpicDetail { epic_id },
        PromptReply::Nothing,
    )
    .unwrap();
    nav.handle_action(
        &mut db,
        Action::DeleteEpic { epic_id },
        PromptReply::Confirmed(false),
    )
    .unwrap();

    assert_eq!(nav.depth(), 2);
    assert!(db.read_db().unwrap().epics.get(epic_id).is_some());
}

#[test]
fn status_update_through_the_navigator() {
    let mut nav = Navigator::new();
    let mut db = JiraDatabase::new();
    let epic_id = db
        .create_epic(Epic::new("".to_owned(), "".to_owned()))
        .unwrap();

    nav.handle_action(
        &mut db,
        Action::UpdateEpicStatus { epic_id },
        PromptReply::NewStatus(Some(Status::Resolved)),
    )
    .unwrap();
    assert_eq!(
        db.read_db().unwrap().epics.get(epic_id).unwrap().status,
        Status::Resolved
    );

    nav.handle_action(
        &mut db,
        Action::UpdateEpicStatus { epic_id },
        PromptReply::NewStatus(None),
    )
    .unwrap();
    assert_eq!(
        db.read_db().unwrap().epics.get(epic_id).unwrap().status,
        Status::Resolved
    );
}

#[test]
fn each_action_asks_for_its_prompt() {
    assert_eq!(prompt_for(&Action::CreateEpic), PromptRequest::NewEpic);
    assert_eq!(
        prompt_for(&Action::CreateStory { epic_id: 1 }),
        PromptRequest::NewStory
    );
    assert_eq!(
        prompt_for(&Action::DeleteEpic { epic_id: 1 }),
        PromptRequest::ConfirmEpicDeletion
    );
    assert_eq!(
        prompt_for(&Action::DeleteStory {
            epic_id: 1,
            story_id: 2
        }),
        PromptRequest::ConfirmStoryDeletion
    );
    assert_eq!(
        prompt_for(&Action::UpdateEpicStatus { epic_id: 1 }),
        PromptRequest::NewStatus
    );
    assert_eq!(
        prompt_for(&Action::UpdateStoryStatus { story_id: 2 }),
        PromptRequest::NewStatus
    );
    assert_eq!(prompt_for(&Action::Exit), PromptRequest::NoPrompt);
    assert_eq!(
        prompt_for(&Action::NavigateToPreviousPage),
        PromptRequest::NoPrompt
    );
}

#[test]
fn confirmation_accepts_empty_and_explicit_yes() {
    assert_eq!(parse_confirmation(""), true);
    assert_eq!(parse_confirmation("Y"), true);
    assert_eq!(parse_confirmation("y"), true);
    assert_eq!(parse_confirmation("N"), false);
    assert_eq!(parse_confirmation("n"), false);
    assert_eq!(parse_confirmation("maybe"), false);
}

#[test]
fn status_prompt_maps_the_four_numbers() {
    assert_eq!(parse_status_choice("1"), Some(Status::Open));
    assert_eq!(parse_status_choice("2"), Some(Status::InProgress));
    assert_eq!(parse_status_choice("3"), Some(Status::Resolved));
    assert_eq!(parse_status_choice("4"), Some(Status::Closed));
    assert_eq!(parse_status_choice("5"), None);
    assert_eq!(parse_status_choice("0"), None);
    assert_eq!(parse_status_choice(""), None);
    assert_eq!(parse_status_choice("x"), None);
}

#[test]
fn status_labels_are_canonical() {
    assert_eq!(Status::Open.label(), "OPEN");
    assert_eq!(Status::InProgress.label(), "IN PROGRESS");
    assert_eq!(Status::Resolved.label(), "RESOLVED");
    assert_eq!(Status::Closed.label(), "CLOSED");
}

#[test]
fn numbers_render_in_decimal() {
    assert_eq!(u32_to_string(0), "0");
    assert_eq!(u32_to_string(7), "7");
    assert_eq!(u32_to_string(42), "42");
    assert_eq!(u32_to_string(4294967295), "4294967295");
}

#[test]
fn number_parsing_matches_the_standard_library() {
    assert_eq!(parse_u32("0"), Some(0));
    assert_eq!(parse_u32("42"), Some(42));
    assert_eq!(parse_u32("+42"), Some(42));
    assert_eq!(parse_u32("007"), Some(7));
    assert_eq!(parse_u32("4294967295"), Some(4294967295));
    assert_eq!(parse_u32("4294967296"), None);
    assert_eq!(parse_u32(""), None);
    assert_eq!(parse_u32("+"), None);
    assert_eq!(parse_u32("-1"), None);
    assert_eq!(parse_u32("12a"), None);
    assert_eq!(parse_u32(" 12"), None);
}
