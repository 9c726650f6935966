use vstd::prelude::*;
use crate::db::JiraDatabase;
use crate::models::{Action, EpicView, StoryView};
use crate::text::{parse_u32, parse_u32_spec, u32_to_string, dec_digits};
use crate::id_map::lemma_pairs_to_map_get;

verus! {

/// The failure a page can report while rendering.
#[derive(Debug, Clone, Copy, PartialEq, Eq, Structural)]
pub enum PageError {
    DrawError,
}

impl PageError {
    pub fn message(&self) -> (r: &'static str) {
        match self {
            PageError::DrawError => "Failed to draw page.",
        }
    }
}

/// Whether a string is exactly the given one-character token.
fn is_token(s: &str, c: char) -> (r: bool)
    ensures
        r == (s@ == seq![c]),
{
    if s.unicode_len() == 1 {
        let r = s.get_char(0) == c;
        proof {
            if r {
                assert(s@ =~= seq![c]);
            } else {
                assert(s@[0] != seq![c][0]);
            }
        }
        r
    } else {
        proof {
            assert(s@.len() != seq![c].len());
        }
        false
    }
}

/// One listing row: id, name and status label, separated by bars.
pub open spec fn epic_row(id: u32, e: EpicView) -> Seq<char> {
    dec_digits(id as int) + "|"@ + e.name + "|"@ + e.status.spec_label() + "\n"@
}

pub open spec fn epic_rows(entries: Seq<(u32, EpicView)>) -> Seq<char>
    decreases entries.len(),
{
    if entries.len() == 0 {
        Seq::empty()
    } else {
        epic_rows(entries.drop_last()) + epic_row(entries.last().0, entries.last().1)
    }
}

/// The home page text: every epic, listed in ascending id order.
pub open spec fn home_render(entries: Seq<(u32, EpicView)>) -> Seq<char> {
    "----------------------------- EPICS -----------------------------\n"@
        + "     id     |               name               |      status      \n"@ + epic_rows(
        entries,
    ) + "\n\n[q] quit | [c] create epic | [:id:] navigate to epic\n"@
}

/// What the home page makes of one line of input.
pub open spec fn home_input_action(epics: Map<u32, EpicView>, input: Seq<char>) -> Option<Action> {
    if input.len() == 0 {
        None
    } else {
        match parse_u32_spec(input) {
            Some(id) => if epics.dom().contains(id) {
                Some(Action::NavigateToEpicDetail { epic_id: id })
            } else {
                None
            },
            None => if input == seq!['q'] {
                Some(Action::Exit)
            } else if input == seq!['c'] {
                Some(Action::CreateEpic)
            } else {
                None
            },
        }
    }
}

/// The entry screen: a listing of all epics.
#[derive(Debug, Clone, Copy, PartialEq, Eq, Structural)]
pub struct HomePage {}

impl HomePage {
    pub fn draw_page(&self, db: &JiraDatabase) -> (r: Result<String, PageError>)
        requires
            db.wf(),
        ensures
            match r {
                Ok(text) => text@ == home_render(db.state.epics.entry_seq()),
                Err(_) => false,
            },
    {
        let mut out = String::from_str(
            "----------------------------- EPICS -----------------------------\n",
        );
        out.append("     id     |               name               |      status      \n");
        let ids = sorted_ids(&db.state.epics.ids());
        proof {
            lemma_sorted_unique(ids@, db.state.epics.key_seq());
            assert(ids@ == db.state.epics.key_seq());
        }
        let ghost entries = db.state.epics.entry_seq();
        let ghost header = "----------------------------- EPICS -----------------------------\n"@
            + "     id     |               name               |      status      \n"@;
        let n = ids.len();
        let mut i: usize = 0;
        while i < n
            invariant
                db.wf(),
                n == ids@.len(),
                0 <= i <= n,
                ids@ == db.state.epics.key_seq(),
                entries == db.state.epics.entry_seq(),
                header == "----------------------------- EPICS -----------------------------\n"@
                    + "     id     |               name               |      status      \n"@,
                out@ == header + epic_rows(entries.take(i as int)),
            decreases n - i,
        {
            let id = ids[i];
            proof {
                lemma_pairs_to_map_get(entries, i as int);
                assert(entries[i as int].0 == id);
            }
            match db.state.epics.get(id) {
                Some(epic) => {
                    out.append(u32_to_string(id).as_str());
                    out.append("|");
                    out.append(epic.name.as_str());
                    out.append("|");
                    out.append(epic.status.label());
                    out.append("\n");
                    proof {
                        assert(entries.take(i + 1 as int).drop_last() =~= entries.take(i as int));
                        assert(entries.take(i + 1 as int).last() == entries[i as int]);
                        assert(epic@ == entries[i as int].1);
                        assert(out@ =~= header + epic_rows(entries.take(i + 1 as int)));
                    }
                },
                None => {},
            }
            i += 1;
        }
        proof {
            assert(entries.take(n as int) =~= entries);
            assert(out@ =~= header + epic_rows(entries));
        }
        out.append("\n\n[q] quit | [c] create epic | [:id:] navigate to epic\n");
        proof {
            assert(out@ =~= home_render(entries));
        }
        Ok(out)
    }

    pub fn handle_input(&self, db: &JiraDatabase, input: &str) -> (r: Result<
        Option<Action>,
        PageError,
    >)
        requires
            db.wf(),
        ensures
            r == Ok::<Option<Action>, PageError>(home_input_action(db@.epics, input@)),
    {
        if input.is_empty() {
            Ok(None)
        } else {
            match parse_u32(input) {
                Some(id) => {
                    if db.state.epics.contains_key(id) {
                        Ok(Some(Action::NavigateToEpicDetail { epic_id: id }))
                    } else {
                        Ok(None)
                    }
                },
                None => {
                    if is_token(input, 'q') {
                        Ok(Some(Action::Exit))
                    } else if is_token(input, 'c') {
                        Ok(Some(Action::CreateEpic))
                    } else {
                        Ok(None)
                    }
                },
            }
        }
    }
}

/// Typing a stored epic's id, as the decimal text the listing shows, on
/// the home page navigates to that epic.
pub proof fn lemma_home_typed_id_navigates(epics: Map<u32, EpicView>, id: u32)
    requires
        epics.dom().contains(id),
    ensures
        home_input_action(epics, dec_digits(id as int)) == Some(
            Action::NavigateToEpicDetail { epic_id: id },
        ),
{
    crate::text::lemma_parse_renders_back(id);
    crate::text::lemma_dec_digits_value(id as int);
}

pub open spec fn story_row(id: u32, s: StoryView) -> Seq<char> {
    dec_digits(id as int) + "|"@ + s.name + "|"@ + s.status.spec_label() + "\n"@
}

pub open spec fn story_rows(stories: Map<u32, StoryView>, list: Seq<u32>) -> Seq<char>
    decreases list.len(),
{
    if list.len() == 0 {
        Seq::empty()
    } else {
        story_rows(stories, list.drop_last()) + story_row(list.last(), stories[list.last()])
    }
}

/// The epic page text: the epic's fields, then its own stories in
/// ascending id order.
pub open spec fn epic_detail_render(epic_id: u32, e: EpicView, stories: Map<u32, StoryView>) -> Seq<
    char,
> {
    "------------------------------ EPIC ------------------------------\n"@
        + "  id  |     name     |         description         |    status    \n"@ + dec_digits(
        epic_id as int,
    ) + "|"@ + e.name + "|"@ + e.description + "|"@ + e.status.spec_label() + "\n"@
        + "\n---------------------------- STORIES ----------------------------\n"@
        + "     id     |               name               |      status      \n"@ + story_rows(
        stories,
        e.stories,
    )
        + "\n\n[p] previous | [u] update epic | [d] delete epic | [c] create story | [:id:] navigate to story\n"@
}

/// What the epic page makes of one line of input.
pub open spec fn epic_detail_input_action(
    stories: Map<u32, StoryView>,
    epic_id: u32,
    input: Seq<char>,
) -> Option<Action> {
    if input.len() == 0 {
        None
    } else {
        match parse_u32_spec(input) {
            Some(id) => if stories.dom().contains(id) {
                Some(Action::NavigateToStoryDetail { epic_id: epic_id, story_id: id })
            } else {
                None
            },
            None => if input == seq!['p'] {
                Some(Action::NavigateToPreviousPage)
            } else if input == seq!['u'] {
                Some(Action::UpdateEpicStatus { epic_id: epic_id })
            } else if input == seq!['d'] {
                Some(Action::DeleteEpic { epic_id: epic_id })
            } else if input == seq!['c'] {
                Some(Action::CreateStory { epic_id: epic_id })
            } else {
                None
            },
        }
    }
}

/// The page showing one epic. Only the stories listed under this epic are
/// shown.
#[derive(Debug, Clone, Copy, PartialEq, Eq, Structural)]
pub struct EpicDetail {
    pub epic_id: u32,
}

impl EpicDetail {
    pub fn draw_page(&self, db: &JiraDatabase) -> (r: Result<String, PageError>)
        requires
            db.wf(),
        ensures
            match r {
                Ok(text) => db@.epics.dom().contains(self.epic_id) && text@ == epic_detail_render(
                    self.epic_id,
                    db@.epics[self.epic_id],
                    db@.stories,
                ),
                Err(e) => e == PageError::DrawError && !db@.epics.dom().contains(self.epic_id),
            },
    {
        let epic = match db.state.epics.get(self.epic_id) {
            None => {
                return Err(PageError::DrawError);
            },
            Some(e) => e,
        };
        let mut out = String::from_str(
            "------------------------------ EPIC ------------------------------\n",
        );
        out.append("  id  |     name     |         description         |    status    \n");
        out.append(u32_to_string(self.epic_id).as_str());
        out.append("|");
        out.append(epic.name.as_str());
        out.append("|");
        out.append(epic.description.as_str());
        out.append("|");
        out.append(epic.status.label());
        out.append("\n");
        out.append("\n---------------------------- STORIES ----------------------------\n");
        out.append("     id     |               name               |      status      \n");
        let ghost header = out@;
        let ghost stories_map = db@.stories;
        let ghost list = epic@.stories;
        let n = epic.stories.len();
        let mut i: usize = 0;
        while i < n
            invariant
                db.wf(),
                db@.epics.dom().contains(self.epic_id),
                epic@ == db@.epics[self.epic_id],
                n == epic.stories.len(),
                0 <= i <= n,
                stories_map == db@.stories,
                list == epic@.stories,
                out@ == header + story_rows(stories_map, list.take(i as int)),
            decreases n - i,
        {
            let sid = epic.stories[i];
            proof {
                assert(list[i as int] == sid);
                assert(crate::db::epic_list_wf(db@, db@.epics[self.epic_id]));
                assert(db@.stories.dom().contains(sid));
            }
            match db.state.stories.get(sid) {
                Some(story) => {
                    out.append(u32_to_string(sid).as_str());
                    out.append("|");
                    out.append(story.name.as_str());
                    out.append("|");
                    out.append(story.status.label());
                    out.append("\n");
                    proof {
                        assert(list.take(i + 1 as int).drop_last() =~= list.take(i as int));
                        assert(list.take(i + 1 as int).last() == list[i as int]);
                        assert(out@ =~= header + story_rows(stories_map, list.take(i + 1 as int)));
                    }
                },
                None => {},
            }
            i += 1;
        }
        proof {
            assert(list.take(n as int) =~= list);
        }
        out.append(
            "\n\n[p] previous | [u] update epic | [d] delete epic | [c] create story | [:id:] navigate to story\n",
        );
        proof {
            assert(out@ =~= epic_detail_render(self.epic_id, db@.epics[self.epic_id], db@.stories));
        }
        Ok(out)
    }

    pub fn handle_input(&self, db: &JiraDatabase, input: &str) -> (r: Result<
        Option<Action>,
        PageError,
    >)
        requires
            db.wf(),
        ensures
            r == Ok::<Option<Action>, PageError>(
                epic_detail_input_action(db@.stories, self.epic_id, input@),
            ),
    {
        if input.is_empty() {
            Ok(None)
        } else {
            match parse_u32(input) {
                Some(id) => {
                    if db.state.stories.contains_key(id) {
                        Ok(
                            Some(
                                Action::NavigateToStoryDetail {
                                    epic_id: self.epic_id,
                                    story_id: id,
                                },
                            ),
                        )
                    } else {
                        Ok(None)
                    }
                },
                None => {
                    if is_token(input, 'p') {
                        Ok(Some(Action::NavigateToPreviousPage))
                    } else if is_token(input, 'u') {
                        Ok(Some(Action::UpdateEpicStatus { epic_id: self.epic_id }))
                    } else if is_token(input, 'd') {
                        Ok(Some(Action::DeleteEpic { epic_id: self.epic_id }))
                    } else if is_token(input, 'c') {
                        Ok(Some(Action::CreateStory { epic_id: self.epic_id }))
                    } else {
                        Ok(None)
                    }
                },
            }
        }
    }
}

/// The story page text: the story's fields under its epic's id.
pub open spec fn story_detail_render(epic_id: u32, s: StoryView) -> Seq<char> {
    "------------------------------ STORY ------------------------------\n"@
        + "  id  |     name     |         description         |    status    \n"@ + dec_digits(
        epic_id as int,
    ) + "|"@ + s.name + "|"@ + s.description + "|"@ + s.status.spec_label() + "\n"@
        + "\n\n[p] previous | [u] update story | [d] delete story\n"@
}

/// What the story page makes of one line of input.
pub open spec fn story_detail_input_action(epic_id: u32, story_id: u32, input: Seq<char>) -> Option<
    Action,
> {
    if input.len() == 0 {
        None
    } else {
        match parse_u32_spec(input) {
            Some(_) => None,
            None => if input == seq!['p'] {
                Some(Action::NavigateToPreviousPage)
            } else if input == seq!['q'] {
                Some(Action::Exit)
            } else if input == seq!['u'] {
                Some(Action::UpdateStoryStatus { story_id: story_id })
            } else if input == seq!['d'] {
                Some(Action::DeleteStory { epic_id: epic_id, story_id: story_id })
            } else {
                None
            },
        }
    }
}

/// The page showing one story.
#[derive(Debug, Clone, Copy, PartialEq, Eq, Structural)]
pub struct StoryDetail {
    pub epic_id: u32,
    pub story_id: u32,
}

impl StoryDetail {
    pub fn draw_page(&self, db: &JiraDatabase) -> (r: Result<String, PageError>)
        requires
            db.wf(),
        ensures
            match r {
                Ok(text) => db@.stories.dom().contains(self.story_id) && text@
                    == story_detail_render(self.epic_id, db@.stories[self.story_id]),
                Err(e) => e == PageError::DrawError && !db@.stories.dom().contains(self.story_id),
            },
    {
        let story = match db.state.stories.get(self.story_id) {
            None => {
                return Err(PageError::DrawError);
            },
            Some(s) => s,
        };
        let mut out = String::from_str(
            "------------------------------ STORY ------------------------------\n",
        );
        out.append("  id  |     name     |         description         |    status    \n");
        out.append(u32_to_string(self.epic_id).as_str());
        out.append("|");
        out.append(story.name.as_str());
        out.append("|");
        out.append(story.description.as_str());
        out.append("|");
        out.append(story.status.label());
        out.append("\n");
        out.append("\n\n[p] previous | [u] update story | [d] delete story\n");
        proof {
            assert(out@ =~= story_detail_render(self.epic_id, db@.stories[self.story_id]));
        }
        Ok(out)
    }

    pub fn handle_input(&self, db: &JiraDatabase, input: &str) -> (r: Result<
        Option<Action>,
        PageError,
    >)
        requires
            db.wf(),
        ensures
            r == Ok::<Option<Action>, PageError>(
                story_detail_input_action(self.epic_id, self.story_id, input@),
            ),
    {
        if input.is_empty() {
            Ok(None)
        } else {
            match parse_u32(input) {
                Some(_) => Ok(None),
                None => {
                    if is_token(input, 'p') {
                        Ok(Some(Action::NavigateToPreviousPage))
                    } else if is_token(input, 'q') {
                        Ok(Some(Action::Exit))
                    } else if is_token(input, 'u') {
                        Ok(Some(Action::UpdateStoryStatus { story_id: self.story_id }))
                    } else if is_token(input, 'd') {
                        Ok(
                            Some(
                                Action::DeleteStory {
                                    epic_id: self.epic_id,
                                    story_id: self.story_id,
                                },
                            ),
                        )
                    } else {
                        Ok(None)
                    }
                },
            }
        }
    }
}

/// Sort ids into ascending order.
///
/// Relies on itertools::sorted: it sorts all elements of the iterator into
/// ascending order.
#[verifier::external_body]
fn sorted_ids(ids: &Vec<u32>) -> (r: Vec<u32>)
    ensures
        r@.to_multiset() == ids@.to_multiset(),
        forall|i: int, j: int| 0 <= i < j < r@.len() ==> r@[i] <= r@[j],
{
    itertools::sorted(ids.iter().copied()).collect()
}

/// Two ascending sequences that hold the same elements the same number of
/// times are the same sequence.
proof fn lemma_sorted_unique(a: Seq<u32>, b: Seq<u32>)
    requires
        forall|i: int, j: int| 0 <= i < j < a.len() ==> a[i] <= a[j],
        forall|i: int, j: int| 0 <= i < j < b.len() ==> b[i] <= b[j],
        a.to_multiset() == b.to_multiset(),
    ensures
        a == b,
    decreases a.len(),
{
    broadcast use vstd::seq_lib::group_to_multiset_ensures;

    if a.len() == 0 {
        assert(b.to_multiset().len() == 0);
        assert(a =~= b);
    } else {
        assert(a.len() == a.to_multiset().len());
        assert(b.len() == b.to_multiset().len());
        assert(b.len() == a.len());
        assert(a.contains(a.first())) by {
            assert(a[0] == a.first());
        }
        assert(b.to_multiset().count(a.first()) > 0);
        assert(b.contains(a.first()));
        assert(b.contains(b.first())) by {
            assert(b[0] == b.first());
        }
        assert(a.to_multiset().count(b.first()) > 0);
        assert(a.contains(b.first()));
        let ia = choose|i: int| 0 <= i < a.len() && a[i] == b.first();
        let ib = choose|i: int| 0 <= i < b.len() && b[i] == a.first();
        assert(a.first() <= a[ia]);
        assert(b.first() <= b[ib]);
        assert(a.first() == b.first());
        let at = a.drop_first();
        let bt = b.drop_first();
        assert(at =~= a.remove(0));
        assert(bt =~= b.remove(0));
        assert(at.to_multiset() == bt.to_multiset()) by {
            assert(a.remove(0).to_multiset() =~= a.to_multiset().remove(a[0]));
            assert(b.remove(0).to_multiset() =~= b.to_multiset().remove(b[0]));
        }
        assert(forall|i: int, j: int| 0 <= i < j < at.len() ==> at[i] <= at[j]) by {
            assert forall|i: int, j: int| 0 <= i < j < at.len() implies at[i] <= at[j] by {
                assert(at[i] == a[i + 1]);
                assert(at[j] == a[j + 1]);
            }
        }
        assert(forall|i: int, j: int| 0 <= i < j < bt.len() ==> bt[i] <= bt[j]) by {
            assert forall|i: int, j: int| 0 <= i < j < bt.len() implies bt[i] <= bt[j] by {
                assert(bt[i] == b[i + 1]);
                assert(bt[j] == b[j + 1]);
            }
        }
        lemma_sorted_unique(at, bt);
        assert(a =~= b) by {
            assert forall|i: int| 0 <= i < a.len() implies a[i] == b[i] by {
                if i > 0 {
                    assert(at[i - 1] == a[i]);
                    assert(bt[i - 1] == b[i]);
                }
            }
        }
    }
}

} // verus!
