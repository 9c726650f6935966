use vstd::prelude::*;
use crate::db::{
    JiraDatabase, JiraDatabaseError, DBStateView, create_epic_transition, create_story_transition,
    delete_epic_transition, delete_story_transition, update_epic_status_transition,
    update_story_status_transition,
};
use crate::models::{Action, Epic, Status, Story};
use crate::pages::{EpicDetail, HomePage, StoryDetail};

verus! {

/// One entry of the navigation stack.
#[derive(Debug, Clone, Copy, PartialEq, Eq, Structural)]
pub enum Page {
    Home(HomePage),
    Epic(EpicDetail),
    Story(StoryDetail),
}

/// A navigation failure wraps the store error that caused it.
#[derive(Debug, Clone, Copy, PartialEq, Eq, Structural)]
pub enum NavigationError {
    Store(JiraDatabaseError),
}

/// The interactive question an action needs answered before it can be
/// applied.
#[derive(Debug, Clone, Copy, PartialEq, Eq, Structural)]
pub enum PromptRequest {
    NoPrompt,
    NewEpic,
    NewStory,
    ConfirmEpicDeletion,
    ConfirmStoryDeletion,
    NewStatus,
}

/// The answer collected for a prompt request.
#[derive(Debug)]
pub enum PromptReply {
    Nothing,
    NewEpic(Epic),
    NewStory(Story),
    Confirmed(bool),
    NewStatus(Option<Status>),
}

/// Which prompt an action needs before the navigator can apply it.
pub open spec fn prompt_for_spec(action: Action) -> PromptRequest {
    match action {
        Action::CreateEpic => PromptRequest::NewEpic,
        Action::CreateStory { .. } => PromptRequest::NewStory,
        Action::DeleteEpic { .. } => PromptRequest::ConfirmEpicDeletion,
        Action::DeleteStory { .. } => PromptRequest::ConfirmStoryDeletion,
        Action::UpdateEpicStatus { .. } => PromptRequest::NewStatus,
        Action::UpdateStoryStatus { .. } => PromptRequest::NewStatus,
        _ => PromptRequest::NoPrompt,
    }
}

/// The reply carries the kind of answer the action's prompt asks for; a
/// new epic starts without stories of its own.
pub open spec fn reply_matches(action: Action, reply: PromptReply) -> bool {
    match prompt_for_spec(action) {
        PromptRequest::NoPrompt => reply is Nothing,
        PromptRequest::NewEpic => reply matches PromptReply::NewEpic(e) && e@.stories
            == Seq::<u32>::empty(),
        PromptRequest::NewStory => reply is NewStory,
        PromptRequest::ConfirmEpicDeletion => reply is Confirmed,
        PromptRequest::ConfirmStoryDeletion => reply is Confirmed,
        PromptRequest::NewStatus => reply is NewStatus,
    }
}

pub fn prompt_for(action: &Action) -> (r: PromptRequest)
    ensures
        r == prompt_for_spec(*action),
{
    match action {
        Action::CreateEpic => PromptRequest::NewEpic,
        Action::CreateStory { .. } => PromptRequest::NewStory,
        Action::DeleteEpic { .. } => PromptRequest::ConfirmEpicDeletion,
        Action::DeleteStory { .. } => PromptRequest::ConfirmStoryDeletion,
        Action::UpdateEpicStatus { .. } => PromptRequest::NewStatus,
        Action::UpdateStoryStatus { .. } => PromptRequest::NewStatus,
        _ => PromptRequest::NoPrompt,
    }
}

/// A stack shrunk by one page, or left alone when it is already empty.
pub open spec fn popped(stack: Seq<Page>) -> Seq<Page> {
    if stack.len() > 0 {
        stack.drop_last()
    } else {
        stack
    }
}

/// The full effect of one action on the page stack and the store.
pub open spec fn handle_action_spec(
    pre_stack: Seq<Page>,
    post_stack: Seq<Page>,
    pre_db: DBStateView,
    post_db: DBStateView,
    action: Action,
    reply: PromptReply,
    r: Result<(), NavigationError>,
) -> bool {
    match action {
        Action::NavigateToEpicDetail { epic_id } => {
            &&& r == Ok::<(), NavigationError>(())
            &&& post_db == pre_db
            &&& post_stack == pre_stack.push(Page::Epic(EpicDetail { epic_id }))
        },
        Action::NavigateToStoryDetail { epic_id, story_id } => {
            &&& r == Ok::<(), NavigationError>(())
            &&& post_db == pre_db
            &&& post_stack == pre_stack.push(Page::Story(StoryDetail { epic_id, story_id }))
        },
        Action::NavigateToPreviousPage => {
            &&& r == Ok::<(), NavigationError>(())
            &&& post_db == pre_db
            &&& post_stack == popped(pre_stack)
        },
        Action::Exit => {
            &&& r == Ok::<(), NavigationError>(())
            &&& post_db == pre_db
            &&& post_stack == Seq::<Page>::empty()
        },
        Action::CreateEpic => match reply {
            PromptReply::NewEpic(epic) => {
                &&& r == Ok::<(), NavigationError>(())
                &&& post_stack == pre_stack
                &&& create_epic_transition(
                    pre_db,
                    post_db,
                    epic@,
                    (pre_db.last_item_id + 1) as u32,
                )
            },
            _ => false,
        },
        Action::CreateStory { epic_id } => match reply {
            PromptReply::NewStory(story) => {
                &&& post_stack == pre_stack
                &&& if pre_db.epics.dom().contains(epic_id) {
                    r == Ok::<(), NavigationError>(()) && create_story_transition(
                        pre_db,
                        post_db,
                        story@,
                        epic_id,
                        (pre_db.last_item_id + 1) as u32,
                    )
                } else {
                    r == Err::<(), NavigationError>(
                        NavigationError::Store(JiraDatabaseError::NoEpicWithID),
                    ) && post_db == pre_db
                }
            },
            _ => false,
        },
        Action::DeleteEpic { epic_id } => match reply {
            PromptReply::Confirmed(yes) => {
                if !yes {
                    r == Ok::<(), NavigationError>(()) && post_db == pre_db && post_stack
                        == pre_stack
                } else if pre_db.epics.dom().contains(epic_id) {
                    r == Ok::<(), NavigationError>(()) && delete_epic_transition(
                        pre_db,
                        post_db,
                        epic_id,
                    ) && post_stack == popped(pre_stack)
                } else {
                    r == Err::<(), NavigationError>(
                        NavigationError::Store(JiraDatabaseError::NoEpicWithID),
                    ) && post_db == pre_db && post_stack == pre_stack
                }
            },
            _ => false,
        },
        Action::DeleteStory { epic_id, story_id } => match reply {
            PromptReply::Confirmed(yes) => {
                if !yes {
                    r == Ok::<(), NavigationError>(()) && post_db == pre_db && post_stack
                        == pre_stack
                } else if !pre_db.epics.dom().contains(epic_id) {
                    r == Err::<(), NavigationError>(
                        NavigationError::Store(JiraDatabaseError::NoEpicWithID),
                    ) && post_db == pre_db && post_stack == pre_stack
                } else if !pre_db.epics[epic_id].stories.contains(story_id) {
                    r == Err::<(), NavigationError>(
                        NavigationError::Store(JiraDatabaseError::NoStoryWithID),
                    ) && post_db == pre_db && post_stack == pre_stack
                } else {
                    r == Ok::<(), NavigationError>(()) && delete_story_transition(
                        pre_db,
                        post_db,
                        epic_id,
                        story_id,
                    ) && post_stack == popped(pre_stack)
                }
            },
            _ => false,
        },
        Action::UpdateEpicStatus { epic_id } => match reply {
            PromptReply::NewStatus(choice) => match choice {
                None => r == Ok::<(), NavigationError>(()) && post_db == pre_db && post_stack
                    == pre_stack,
                Some(status) => {
                    &&& post_stack == pre_stack
                    &&& if pre_db.epics.dom().contains(epic_id) {
                        r == Ok::<(), NavigationError>(()) && update_epic_status_transition(
                            pre_db,
                            post_db,
                            epic_id,
                            status,
                        )
                    } else {
                        r == Err::<(), NavigationError>(
                            NavigationError::Store(JiraDatabaseError::NoEpicWithID),
                        ) && post_db == pre_db
                    }
                },
            },
            _ => false,
        },
        Action::UpdateStoryStatus { story_id } => match reply {
            PromptReply::NewStatus(choice) => match choice {
                None => r == Ok::<(), NavigationError>(()) && post_db == pre_db && post_stack
                    == pre_stack,
                Some(status) => {
                    &&& post_stack == pre_stack
                    &&& if pre_db.stories.dom().contains(story_id) {
                        r == Ok::<(), NavigationError>(()) && update_story_status_transition(
                            pre_db,
                            post_db,
                            story_id,
                            status,
                        )
                    } else {
                        r == Err::<(), NavigationError>(
                            NavigationError::Store(JiraDatabaseError::NoEpicWithID),
                        ) && post_db == pre_db
                    }
                },
            },
            _ => false,
        },
    }
}

/// The navigator: it owns the stack of pages and is the one place where
/// actions touch the store.
#[derive(Debug)]
pub struct Navigator {
    pages: Vec<Page>,
}

impl Navigator {
    /// The pages from bottom to top; the last one is shown.
    pub closed spec fn stack(self) -> Seq<Page> {
        self.pages@
    }

    pub fn new() -> (r: Self)
        ensures
            r.stack() == seq![Page::Home(HomePage {  })],
    {
        let mut pages: Vec<Page> = Vec::new();
        pages.push(Page::Home(HomePage {}));
        let r = Self { pages };
        proof {
            assert(r.stack() =~= seq![Page::Home(HomePage {  })]);
        }
        r
    }

    /// The page on top of the stack; an empty stack ends the interaction.
    pub fn get_current_page(&self) -> (r: Option<&Page>)
        ensures
            match r {
                Some(p) => self.stack().len() > 0 && *p == self.stack().last(),
                None => self.stack().len() == 0,
            },
    {
        if self.pages.len() == 0 {
            None
        } else {
            Some(&self.pages[self.pages.len() - 1])
        }
    }

    /// How many pages are on the stack.
    pub fn depth(&self) -> (r: usize)
        ensures
            r == self.stack().len(),
    {
        self.pages.len()
    }

    /// Apply one action to the stack and the store. The reply carries
    /// whatever the action's prompt collected.
    pub fn handle_action(
        &mut self,
        db: &mut JiraDatabase,
        action: Action,
        reply: PromptReply,
    ) -> (r: Result<(), NavigationError>)
        requires
            old(db).wf(),
            old(db)@.last_item_id < u32::MAX,
            reply_matches(action, reply),
        ensures
            final(db).wf(),
            handle_action_spec(
                old(self).stack(),
                final(self).stack(),
                old(db)@,
                final(db)@,
                action,
                reply,
                r,
            ),
    {
        match action {
            Action::NavigateToEpicDetail { epic_id } => {
                self.pages.push(Page::Epic(EpicDetail { epic_id }));
                Ok(())
            },
            Action::NavigateToStoryDetail { epic_id, story_id } => {
                self.pages.push(Page::Story(StoryDetail { epic_id, story_id }));
                Ok(())
            },
            Action::NavigateToPreviousPage => {
                self.pages.pop();
                proof {
                    assert(self.stack() == popped(old(self).stack()));
                }
                Ok(())
            },
            Action::Exit => {
                self.pages.clear();
                Ok(())
            },
            Action::CreateEpic => match reply {
                PromptReply::NewEpic(epic) => match db.create_epic(epic) {
                    Ok(_) => Ok(()),
                    Err(e) => Err(NavigationError::Store(e)),
                },
                _ => {
                    proof {
                        assert(false);
                    }
                    Ok(())
                },
            },
            Action::CreateStory { epic_id } => match reply {
                PromptReply::NewStory(story) => match db.create_story(story, epic_id) {
                    Ok(_) => Ok(()),
                    Err(e) => Err(NavigationError::Store(e)),
                },
                _ => {
                    proof {
                        assert(false);
                    }
                    Ok(())
                },
            },
            Action::DeleteEpic { epic_id } => match reply {
                PromptReply::Confirmed(yes) => {
                    if yes {
                        match db.delete_epic(epic_id) {
                            Ok(_) => {
                                self.pages.pop();
                                proof {
                                    assert(self.stack() == popped(old(self).stack()));
                                }
                                Ok(())
                            },
                            Err(e) => Err(NavigationError::Store(e)),
                        }
                    } else {
                        Ok(())
                    }
                },
                _ => {
                    proof {
                        assert(false);
                    }
                    Ok(())
                },
            },
            Action::DeleteStory { epic_id, story_id } => match reply {
                PromptReply::Confirmed(yes) => {
                    if yes {
                        match db.delete_story(epic_id, story_id) {
                            Ok(_) => {
                                self.pages.pop();
                                proof {
                                    assert(self.stack() == popped(old(self).stack()));
                                }
                                Ok(())
                            },
                            Err(e) => Err(NavigationError::Store(e)),
                        }
                    } else {
                        Ok(())
                    }
                },
                _ => {
                    proof {
                        assert(false);
                    }
                    Ok(())
                },
            },
            Action::UpdateEpicStatus { epic_id } => match reply {
                PromptReply::NewStatus(choice) => match choice {
                    None => Ok(()),
                    Some(status) => match db.update_epic_status(epic_id, status) {
                        Ok(_) => Ok(()),
                        Err(e) => Err(NavigationError::Store(e)),
                    },
                },
                _ => {
                    proof {
                        assert(false);
                    }
                    Ok(())
                },
            },
            Action::UpdateStoryStatus { story_id } => match reply {
                PromptReply::NewStatus(choice) => match choice {
                    None => Ok(()),
                    Some(status) => match db.update_story_status(story_id, status) {
                        Ok(_) => Ok(()),
                        Err(e) => Err(NavigationError::Store(e)),
                    },
                },
                _ => {
                    proof {
                        assert(false);
                    }
                    Ok(())
                },
            },
        }
    }
}

} // verus!
