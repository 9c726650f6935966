use vstd::prelude::*;
use crate::models::{Epic, EpicView, Story, StoryView};
use crate::id_map::{IdMap, lemma_pairs_to_map_dom};

verus! {

/// The failures a store operation can report.
#[derive(Debug, Clone, Copy, PartialEq, Eq, Structural)]
pub enum JiraDatabaseError {
    Read,
    Write,
    NoEpicWithID,
    NoStoryWithID,
}

impl JiraDatabaseError {
    pub fn message(&self) -> (r: &'static str) {
        match self {
            JiraDatabaseError::Read => "Failed to read Jira database.",
            JiraDatabaseError::Write => "Failed to write Jira database.",
            JiraDatabaseError::NoEpicWithID => "No Epic with ID found.",
            JiraDatabaseError::NoStoryWithID => "No Story with ID found.",
        }
    }
}

/// The mathematical value of a full store snapshot.
pub ghost struct DBStateView {
    pub last_item_id: u32,
    pub epics: Map<u32, EpicView>,
    pub stories: Map<u32, StoryView>,
}

/// A full store snapshot: an id counter and the two entity collections.
#[derive(Debug)]
pub struct DBState {
    pub last_item_id: u32,
    pub epics: IdMap<Epic>,
    pub stories: IdMap<Story>,
}

impl View for DBState {
    type V = DBStateView;

    open spec fn view(&self) -> DBStateView {
        DBStateView {
            last_item_id: self.last_item_id,
            epics: self.epics@,
            stories: self.stories@,
        }
    }
}

impl Clone for DBState {
    fn clone(&self) -> (r: Self)
        ensures
            r@ == self@,
            r.last_item_id == self.last_item_id,
            r.epics.entry_seq() == self.epics.entry_seq(),
            r.stories.entry_seq() == self.stories.entry_seq(),
    {
        Self {
            last_item_id: self.last_item_id,
            epics: self.epics.clone(),
            stories: self.stories.clone(),
        }
    }
}

impl PartialEq for DBState {
    fn eq(&self, other: &Self) -> (r: bool) {
        self.last_item_id == other.last_item_id && self.epics == other.epics && self.stories
            == other.stories
    }
}

impl vstd::std_specs::cmp::PartialEqSpecImpl for DBState {
    open spec fn obeys_eq_spec() -> bool {
        true
    }

    open spec fn eq_spec(&self, other: &Self) -> bool {
        &&& self.last_item_id == other.last_item_id
        &&& self.epics.entry_seq() == other.epics.entry_seq()
        &&& self.stories.entry_seq() == other.stories.entry_seq()
    }
}

/// Every id in the epic's story list names a stored story, and the list is
/// strictly increasing, which is creation order.
pub open spec fn epic_list_wf(v: DBStateView, e: EpicView) -> bool {
    &&& forall|i: int| 0 <= i < e.stories.len() ==> v.stories.dom().contains(#[trigger] e.stories[i])
    &&& forall|i: int, j: int|
        0 <= i < j < e.stories.len() ==> (#[trigger] e.stories[i]) < (#[trigger] e.stories[j])
}

/// The referential-integrity invariant of a store snapshot: ids never exceed
/// the counter, the two id spaces are disjoint, story lists are well formed,
/// and every story belongs to exactly one epic.
pub open spec fn view_wf(v: DBStateView) -> bool {
    &&& forall|k: u32| #[trigger] v.epics.dom().contains(k) ==> k <= v.last_item_id
    &&& forall|k: u32| #[trigger] v.stories.dom().contains(k) ==> k <= v.last_item_id
    &&& forall|k: u32| #[trigger] v.epics.dom().contains(k) ==> !v.stories.dom().contains(k)
    &&& forall|k: u32| #[trigger] v.epics.dom().contains(k) ==> epic_list_wf(v, v.epics[k])
    &&& forall|k1: u32, k2: u32, sid: u32|
        v.epics.dom().contains(k1) && v.epics.dom().contains(k2) && (#[trigger] v.epics[k1].stories.contains(
            sid,
        )) && (#[trigger] v.epics[k2].stories.contains(sid)) ==> k1 == k2
    &&& forall|sid: u32| #[trigger] v.stories.dom().contains(sid) ==> exists|k: u32|
        v.epics.dom().contains(k) && #[trigger] v.epics[k].stories.contains(sid)
}

/// What one successful `create_epic` call does to a snapshot.
pub open spec fn create_epic_transition(
    pre: DBStateView,
    post: DBStateView,
    epic: EpicView,
    id: u32,
) -> bool {
    &&& id == pre.last_item_id + 1
    &&& post.last_item_id == id
    &&& post.epics == pre.epics.insert(id, epic)
    &&& post.stories == pre.stories
}

/// What one successful `create_story` call does to a snapshot.
pub open spec fn create_story_transition(
    pre: DBStateView,
    post: DBStateView,
    story: StoryView,
    epic_id: u32,
    id: u32,
) -> bool {
    &&& pre.epics.dom().contains(epic_id)
    &&& id == pre.last_item_id + 1
    &&& post.last_item_id == id
    &&& post.stories == pre.stories.insert(id, story)
    &&& post.epics == pre.epics.insert(
        epic_id,
        EpicView { stories: pre.epics[epic_id].stories.push(id), ..pre.epics[epic_id] },
    )
}

/// What one successful `update_epic_status` call does to a snapshot: only
/// the status field of the named epic changes.
pub open spec fn update_epic_status_transition(
    pre: DBStateView,
    post: DBStateView,
    epic_id: u32,
    status: crate::models::Status,
) -> bool {
    &&& pre.epics.dom().contains(epic_id)
    &&& post.last_item_id == pre.last_item_id
    &&& post.stories == pre.stories
    &&& post.epics == pre.epics.insert(epic_id, EpicView { status: status, ..pre.epics[epic_id] })
}

/// What one successful `update_story_status` call does to a snapshot: only
/// the status field of the named story changes.
pub open spec fn update_story_status_transition(
    pre: DBStateView,
    post: DBStateView,
    story_id: u32,
    status: crate::models::Status,
) -> bool {
    &&& pre.stories.dom().contains(story_id)
    &&& post.last_item_id == pre.last_item_id
    &&& post.epics == pre.epics
    &&& post.stories == pre.stories.insert(
        story_id,
        StoryView { status: status, ..pre.stories[story_id] },
    )
}

/// What one successful `delete_epic` call does to a snapshot: the epic goes
/// away together with every story listed under it.
pub open spec fn delete_epic_transition(pre: DBStateView, post: DBStateView, epic_id: u32) -> bool {
    &&& pre.epics.dom().contains(epic_id)
    &&& post.last_item_id == pre.last_item_id
    &&& post.epics == pre.epics.remove(epic_id)
    &&& post.stories == pre.stories.remove_keys(pre.epics[epic_id].stories.to_set())
}

/// What one successful `delete_story` call does to a snapshot: the story
/// goes away from the story collection and from its epic's list.
pub open spec fn delete_story_transition(
    pre: DBStateView,
    post: DBStateView,
    epic_id: u32,
    story_id: u32,
) -> bool {
    &&& pre.epics.dom().contains(epic_id)
    &&& pre.epics[epic_id].stories.contains(story_id)
    &&& post.last_item_id == pre.last_item_id
    &&& post.stories == pre.stories.remove(story_id)
    &&& exists|i: int|
        0 <= i < pre.epics[epic_id].stories.len() && (#[trigger] pre.epics[epic_id].stories[i])
            == story_id && post.epics == pre.epics.insert(
            epic_id,
            EpicView { stories: pre.epics[epic_id].stories.remove(i), ..pre.epics[epic_id] },
        )
}

/// The position of an id in a list, if it occurs there.
fn find_index(v: &Vec<u32>, x: u32) -> (r: Option<usize>)
    ensures
        match r {
            Some(i) => i < v@.len() && v@[i as int] == x,
            None => !v@.contains(x),
        },
{
    let n = v.len();
    let mut i: usize = 0;
    while i < n
        invariant
            n == v@.len(),
            0 <= i <= n,
            forall|j: int| 0 <= j < i ==> v@[j] != x,
        decreases n - i,
    {
        if v[i] == x {
            return Some(i);
        }
        i += 1;
    }
    None
}

/// The store: it owns the snapshot and enforces referential integrity on
/// every mutation.
#[derive(Debug)]
pub struct JiraDatabase {
    pub state: DBState,
}

impl View for JiraDatabase {
    type V = DBStateView;

    open spec fn view(&self) -> DBStateView {
        self.state@
    }
}

impl JiraDatabase {
    /// Both collections are well represented and the snapshot satisfies
    /// referential integrity.
    pub open spec fn wf(self) -> bool {
        &&& self.state.epics.inv()
        &&& self.state.stories.inv()
        &&& view_wf(self.state@)
    }

    pub fn new() -> (r: Self)
        ensures
            r.wf(),
            r@.last_item_id == 0,
            r@.epics == Map::<u32, EpicView>::empty(),
            r@.stories == Map::<u32, StoryView>::empty(),
    {
        Self { state: DBState { last_item_id: 0, epics: IdMap::new(), stories: IdMap::new() } }
    }

    /// A snapshot of the current state; the in-memory store always succeeds.
    pub fn read_db(&self) -> (r: Result<DBState, JiraDatabaseError>)
        ensures
            match r {
                Ok(s) => {
                    &&& s@ == self@
                    &&& s.last_item_id == self.state.last_item_id
                    &&& s.epics.entry_seq() == self.state.epics.entry_seq()
                    &&& s.stories.entry_seq() == self.state.stories.entry_seq()
                },
                Err(_) => false,
            },
    {
        Ok(self.state.clone())
    }

    /// Store a new epic under the next id. A new epic owns no stories yet.
    pub fn create_epic(&mut self, epic: Epic) -> (r: Result<u32, JiraDatabaseError>)
        requires
            old(self).wf(),
            old(self)@.last_item_id < u32::MAX,
            epic@.stories == Seq::<u32>::empty(),
        ensures
            final(self).wf(),
            r == Ok::<u32, JiraDatabaseError>((old(self)@.last_item_id + 1) as u32),
            create_epic_transition(
                old(self)@,
                final(self)@,
                epic@,
                (old(self)@.last_item_id + 1) as u32,
            ),
            final(self).state.epics.entry_seq() == old(self).state.epics.entry_seq().push(
                (((old(self)@.last_item_id + 1) as u32), epic@),
            ),
            final(self).state.stories.entry_seq() == old(self).state.stories.entry_seq(),
    {
        let id = self.state.last_item_id + 1;
        proof {
            lemma_pairs_to_map_dom(self.state.epics.entry_seq());
            assert forall|j: int| 0 <= j < self.state.epics.entry_seq().len() implies (
            #[trigger] self.state.epics.entry_seq()[j]).0 < id by {
                let k = self.state.epics.entry_seq()[j].0;
                assert(self.state.epics@.dom().contains(k));
            }
        }
        self.state.epics.push_max(id, epic);
        self.state.last_item_id = id;
        proof {
            let pre = old(self)@;
            let post = self@;
            assert(post.epics =~= pre.epics.insert(id, epic@));
            lemma_pairs_to_map_dom(old(self).state.stories.entry_seq());
            assert forall|k: u32| #[trigger] post.epics.dom().contains(k) implies epic_list_wf(
                post,
                post.epics[k],
            ) by {
                if k != id {
                    assert(pre.epics.dom().contains(k));
                    assert(epic_list_wf(pre, pre.epics[k]));
                }
            }
            assert forall|sid: u32| #[trigger] post.stories.dom().contains(sid) implies exists|
                k: u32,
            | post.epics.dom().contains(k) && #[trigger] post.epics[k].stories.contains(sid) by {
                assert(pre.stories.dom().contains(sid));
                let k = choose|k: u32|
                    pre.epics.dom().contains(k) && #[trigger] pre.epics[k].stories.contains(sid);
                assert(post.epics.dom().contains(k) && post.epics[k].stories.contains(sid));
            }
            assert(view_wf(post));
        }
        Ok(id)
    }

    /// Store a new story under the next id and list it under the given epic.
    pub fn create_story(&mut self, story: Story, epic_id: u32) -> (r: Result<
        u32,
        JiraDatabaseError,
    >)
        requires
            old(self).wf(),
            old(self)@.last_item_id < u32::MAX,
        ensures
            final(self).wf(),
            !old(self)@.epics.dom().contains(epic_id) ==> r == Err::<u32, JiraDatabaseError>(
                JiraDatabaseError::NoEpicWithID,
            ) && *final(self) == *old(self),
            old(self)@.epics.dom().contains(epic_id) ==> r == Ok::<u32, JiraDatabaseError>(
                ((old(self)@.last_item_id + 1) as u32),
            ) && create_story_transition(
                old(self)@,
                final(self)@,
                story@,
                epic_id,
                (old(self)@.last_item_id + 1) as u32,
            ),
    {
        let epic_opt = self.state.epics.get_cloned(epic_id);
        match epic_opt {
            None => Err(JiraDatabaseError::NoEpicWithID),
            Some(mut new_epic) => {
                let id = self.state.last_item_id + 1;
                proof {
                    lemma_pairs_to_map_dom(self.state.stories.entry_seq());
                    assert forall|j: int| 0 <= j < self.state.stories.entry_seq().len() implies (
                    #[trigger] self.state.stories.entry_seq()[j]).0 < id by {
                        let k = self.state.stories.entry_seq()[j].0;
                        assert(self.state.stories@.dom().contains(k));
                    }
                }
                self.state.stories.push_max(id, story);
                new_epic.stories.push(id);
                self.state.epics.replace(epic_id, new_epic);
                self.state.last_item_id = id;
                proof {
                    let pre = old(self)@;
                    let post = self@;
                    let old_e = pre.epics[epic_id];
                    let new_e = EpicView { stories: old_e.stories.push(id), ..old_e };
                    assert(new_epic@ == new_e);
                    assert(post.epics =~= pre.epics.insert(epic_id, new_e));
                    assert(post.stories =~= pre.stories.insert(id, story@));
                    assert(create_story_transition(pre, post, story@, epic_id, id));
                    assert(view_wf(post)) by {
                        assert forall|k: u32| #[trigger] post.epics.dom().contains(k) implies
                            epic_list_wf(post, post.epics[k]) by {
                            assert(pre.epics.dom().contains(k));
                            assert(epic_list_wf(pre, pre.epics[k]));
                            let e = post.epics[k];
                            if k == epic_id {
                                assert forall|i: int| 0 <= i < e.stories.len() implies post.stories
                                    .dom().contains(#[trigger] e.stories[i]) by {
                                    if i < old_e.stories.len() {
                                        assert(e.stories[i] == old_e.stories[i]);
                                    }
                                }
                                assert forall|i: int, j: int| 0 <= i < j < e.stories.len() implies (
                                #[trigger] e.stories[i]) < (#[trigger] e.stories[j]) by {
                                    if j < old_e.stories.len() {
                                    } else {
                                        assert(e.stories[j] == id);
                                        if i < old_e.stories.len() {
                                            let sid = old_e.stories[i];
                                            assert(pre.stories.dom().contains(sid));
                                            assert(sid <= pre.last_item_id);
                                        }
                                    }
                                }
                            }
                        }
                        assert forall|k1: u32, k2: u32, sid: u32|
                            post.epics.dom().contains(k1) && post.epics.dom().contains(k2) && (
                            #[trigger] post.epics[k1].stories.contains(sid)) && (
                            #[trigger] post.epics[k2].stories.contains(sid)) implies k1 == k2 by {
                            lemma_member_of_extended_list(pre, epic_id, id, post.epics[k1], k1, sid);
                            lemma_member_of_extended_list(pre, epic_id, id, post.epics[k2], k2, sid);
                            if sid == id {
                                // only the extended list contains the new id
                                assert(k1 == epic_id && k2 == epic_id);
                            } else {
                                assert(pre.epics[k1].stories.contains(sid));
                                assert(pre.epics[k2].stories.contains(sid));
                            }
                        }
                        assert forall|sid: u32| #[trigger] post.stories.dom().contains(sid) implies
                            exists|k: u32|
                                post.epics.dom().contains(k) && #[trigger] post.epics[k].stories.contains(
                                    sid,
                                ) by {
                            if sid == id {
                                assert(post.epics[epic_id].stories.last() == id);
                                assert(post.epics[epic_id].stories.contains(id));
                                assert(post.epics.dom().contains(epic_id));
                            } else {
                                assert(pre.stories.dom().contains(sid));
                                let k = choose|k: u32|
                                    pre.epics.dom().contains(k) && #[trigger] pre.epics[k].stories.contains(
                                        sid,
                                    );
                                if k == epic_id {
                                    let i = choose|i: int|
                                        0 <= i < old_e.stories.len() && old_e.stories[i] == sid;
                                    assert(post.epics[k].stories[i] == sid);
                                    assert(post.epics[k].stories.contains(sid));
                                } else {
                                    assert(post.epics[k].stories.contains(sid));
                                }
                            }
                        }
                    }
                }
                Ok(id)
            },
        }
    }

    /// Remove the named epic and every story listed under it.
    pub fn delete_epic(&mut self, epic_id: u32) -> (r: Result<(), JiraDatabaseError>)
        requires
            old(self).wf(),
        ensures
            final(self).wf(),
            !old(self)@.epics.dom().contains(epic_id) ==> r == Err::<(), JiraDatabaseError>(
                JiraDatabaseError::NoEpicWithID,
            ) && *final(self) == *old(self),
            old(self)@.epics.dom().contains(epic_id) ==> r == Ok::<(), JiraDatabaseError>(())
                && delete_epic_transition(old(self)@, final(self)@, epic_id),
    {
        let epic_opt = self.state.epics.get_cloned(epic_id);
        match epic_opt {
            None => Err(JiraDatabaseError::NoEpicWithID),
            Some(epic) => {
                proof {
                    assert(old(self)@.stories.remove_keys(
                        epic@.stories.take(0).to_set(),
                    ) =~= old(self)@.stories);
                }
                let n = epic.stories.len();
                let mut i: usize = 0;
                while i < n
                    invariant
                        old(self).wf(),
                        old(self)@.epics.dom().contains(epic_id),
                        epic@ == old(self)@.epics[epic_id],
                        n == epic.stories.len(),
                        0 <= i <= n,
                        self.state.epics == old(self).state.epics,
                        self.state.last_item_id == old(self).state.last_item_id,
                        self.state.stories.inv(),
                        self.state.stories@ == old(self)@.stories.remove_keys(
                            epic@.stories.take(i as int).to_set(),
                        ),
                    decreases n - i,
                {
                    let sid = epic.stories[i];
                    self.state.stories.remove(sid);
                    proof {
                        assert(epic@.stories.take(i + 1 as int).to_set() =~= epic@.stories.take(
                            i as int,
                        ).to_set().insert(sid)) by {
                            let a = epic@.stories.take(i + 1 as int);
                            let b = epic@.stories.take(i as int);
                            assert forall|x: u32| a.contains(x) implies b.to_set().insert(
                                sid,
                            ).contains(x) by {
                                let j = choose|j: int| 0 <= j < a.len() && a[j] == x;
                                if j < i {
                                    assert(b[j] == x);
                                    assert(b.contains(x));
                                }
                            }
                            assert forall|x: u32| b.to_set().insert(sid).contains(x) implies a.contains(
                                x,
                            ) by {
                                if x == sid {
                                    assert(a[i as int] == sid);
                                } else {
                                    let j = choose|j: int| 0 <= j < b.len() && b[j] == x;
                                    assert(a[j] == x);
                                }
                            }
                        }
                        assert(self.state.stories@ =~= old(self)@.stories.remove_keys(
                            epic@.stories.take(i + 1 as int).to_set(),
                        ));
                    }
                    i += 1;
                }
                proof {
                    assert(epic@.stories.take(n as int) =~= epic@.stories);
                }
                self.state.epics.remove(epic_id);
                proof {
                    let pre = old(self)@;
                    let post = self@;
                    let gone = pre.epics[epic_id].stories.to_set();
                    assert(post.epics =~= pre.epics.remove(epic_id));
                    assert(delete_epic_transition(pre, post, epic_id));
                    assert(view_wf(post)) by {
                        assert forall|k: u32| #[trigger] post.epics.dom().contains(k) implies
                            epic_list_wf(post, post.epics[k]) by {
                            assert(epic_list_wf(pre, pre.epics[k]));
                            let e = post.epics[k];
                            assert(e == pre.epics[k]);
                            assert forall|i2: int| 0 <= i2 < e.stories.len() implies post.stories.dom()
                                .contains(#[trigger] e.stories[i2]) by {
                                let sid = e.stories[i2];
                                assert(e.stories.contains(sid));
                                assert(pre.stories.dom().contains(sid));
                                if gone.contains(sid) {
                                    assert(pre.epics[epic_id].stories.contains(sid));
                                    assert(k == epic_id);
                                }
                            }
                        }
                        assert forall|k1: u32, k2: u32, sid: u32|
                            post.epics.dom().contains(k1) && post.epics.dom().contains(k2) && (
                            #[trigger] post.epics[k1].stories.contains(sid)) && (
                            #[trigger] post.epics[k2].stories.contains(sid)) implies k1 == k2 by {
                            assert(pre.epics[k1].stories.contains(sid));
                            assert(pre.epics[k2].stories.contains(sid));
                        }
                        assert forall|sid: u32| #[trigger] post.stories.dom().contains(sid) implies
                            exists|k: u32|
                                post.epics.dom().contains(k) && #[trigger] post.epics[k].stories.contains(
                                    sid,
                                ) by {
                            assert(pre.stories.dom().contains(sid));
                            assert(!gone.contains(sid));
                            let k = choose|k: u32|
                                pre.epics.dom().contains(k) && #[trigger] pre.epics[k].stories.contains(
                                    sid,
                                );
                            assert(k != epic_id);
                            assert(post.epics.dom().contains(k));
                            assert(post.epics[k].stories.contains(sid));
                        }
                    }
                }
                Ok(())
            },
        }
    }

    /// Remove the named story, which must be listed under the named epic;
    /// a story id that lives elsewhere in the store does not qualify.
    #[verifier::rlimit(60)]
    pub fn delete_story(&mut self, epic_id: u32, story_id: u32) -> (r: Result<
        (),
        JiraDatabaseError,
    >)
        requires
            old(self).wf(),
        ensures
            final(self).wf(),
            !old(self)@.epics.dom().contains(epic_id) ==> r == Err::<(), JiraDatabaseError>(
                JiraDatabaseError::NoEpicWithID,
            ) && *final(self) == *old(self),
            old(self)@.epics.dom().contains(epic_id) && !old(self)@.epics[epic_id].stories.contains(
                story_id,
            ) ==> r == Err::<(), JiraDatabaseError>(JiraDatabaseError::NoStoryWithID)
                && *final(self) == *old(self),
            old(self)@.epics.dom().contains(epic_id) && old(self)@.epics[epic_id].stories.contains(
                story_id,
            ) ==> r == Ok::<(), JiraDatabaseError>(()) && delete_story_transition(
                old(self)@,
                final(self)@,
                epic_id,
                story_id,
            ),
    {
        let epic_opt = self.state.epics.get_cloned(epic_id);
        match epic_opt {
            None => Err(JiraDatabaseError::NoEpicWithID),
            Some(mut new_epic) => {
                match find_index(&new_epic.stories, story_id) {
                    None => Err(JiraDatabaseError::NoStoryWithID),
                    Some(idx) => {
                        proof {
                            assert(old(self)@.epics[epic_id].stories[idx as int] == story_id);
                            assert(old(self)@.epics[epic_id].stories.contains(story_id));
                            assert(old(self)@.stories.dom().contains(story_id));
                        }
                        self.state.stories.remove(story_id);
                        new_epic.stories.remove(idx);
                        self.state.epics.replace(epic_id, new_epic);
                        proof {
                            let pre = old(self)@;
                            let post = self@;
                            let old_e = pre.epics[epic_id];
                            let new_list = old_e.stories.remove(idx as int);
                            let new_e = EpicView { stories: new_list, ..old_e };
                            assert(new_epic@ == new_e);
                            assert(post.epics =~= pre.epics.insert(epic_id, new_e));
                            assert(post.stories =~= pre.stories.remove(story_id));
                            assert(delete_story_transition(pre, post, epic_id, story_id));
                            assert forall|j: int, x: u32|
                                0 <= j < new_list.len() && new_list[j] == x implies old_e.stories.contains(
                                x,
                            ) && (x == story_id ==> false) by {
                                let oj = if j < idx as int { j } else { j + 1 };
                                assert(old_e.stories[oj] == x);
                                assert(old_e.stories.contains(x));
                            }
                            assert(view_wf(post)) by {
                                assert forall|k: u32| #[trigger] post.epics.dom().contains(k)
                                    implies epic_list_wf(post, post.epics[k]) by {
                                    assert(epic_list_wf(pre, pre.epics[k]));
                                    let e = post.epics[k];
                                    if k == epic_id {
                                        assert forall|i2: int| 0 <= i2 < e.stories.len() implies
                                            post.stories.dom().contains(
                                            #[trigger] e.stories[i2]) by {
                                            let oi = if i2 < idx as int { i2 } else { i2 + 1 };
                                            assert(e.stories[i2] == old_e.stories[oi]);
                                        }
                                        assert forall|i2: int, j2: int|
                                            0 <= i2 < j2 < e.stories.len() implies (
                                        #[trigger] e.stories[i2]) < (#[trigger] e.stories[j2]) by {
                                            let oi = if i2 < idx as int { i2 } else { i2 + 1 };
                                            let oj = if j2 < idx as int { j2 } else { j2 + 1 };
                                            assert(e.stories[i2] == old_e.stories[oi]);
                                            assert(e.stories[j2] == old_e.stories[oj]);
                                        }
                                    } else {
                                        assert forall|i2: int| 0 <= i2 < e.stories.len() implies
                                            post.stories.dom().contains(
                                            #[trigger] e.stories[i2]) by {
                                            let sid = e.stories[i2];
                                            assert(e.stories.contains(sid));
                                            assert(pre.stories.dom().contains(sid));
                                            if sid == story_id {
                                                assert(pre.epics[k].stories.contains(story_id));
                                                assert(k == epic_id);
                                            }
                                        }
                                    }
                                }
                                assert forall|k1: u32, k2: u32, sid: u32|
                                    post.epics.dom().contains(k1) && post.epics.dom().contains(k2)
                                        && (#[trigger] post.epics[k1].stories.contains(sid)) && (
                                    #[trigger] post.epics[k2].stories.contains(sid)) implies k1
                                    == k2 by {
                                    lemma_member_of_shrunk_list(pre, epic_id, idx as int, post.epics[k1], k1, sid);
                                    lemma_member_of_shrunk_list(pre, epic_id, idx as int, post.epics[k2], k2, sid);
                                }
                                assert forall|sid: u32| #[trigger] post.stories.dom().contains(sid)
                                    implies exists|k: u32|
                                    post.epics.dom().contains(k)
                                        && #[trigger] post.epics[k].stories.contains(sid) by {
                                    assert(pre.stories.dom().contains(sid));
                                    assert(sid != story_id);
                                    let k = choose|k: u32|
                                        pre.epics.dom().contains(k)
                                            && #[trigger] pre.epics[k].stories.contains(sid);
                                    if k == epic_id {
                                        let j = choose|j: int|
                                            0 <= j < old_e.stories.len() && old_e.stories[j] == sid;
                                        let nj = if j < idx as int { j } else { j - 1 };
                                        assert(j != idx as int);
                                        assert(new_list[nj] == sid);
                                        assert(post.epics[k].stories.contains(sid));
                                    } else {
                                        assert(post.epics[k].stories.contains(sid));
                                    }
                                }
                            }
                        }
                        Ok(())
                    },
                }
            },
        }
    }

    /// Replace the status of the named epic, leaving every other field as
    /// it was.
    pub fn update_epic_status(&mut self, epic_id: u32, status: crate::models::Status) -> (r: Result<
        (),
        JiraDatabaseError,
    >)
        requires
            old(self).wf(),
        ensures
            final(self).wf(),
            !old(self)@.epics.dom().contains(epic_id) ==> r == Err::<(), JiraDatabaseError>(
                JiraDatabaseError::NoEpicWithID,
            ) && *final(self) == *old(self),
            old(self)@.epics.dom().contains(epic_id) ==> r == Ok::<(), JiraDatabaseError>(())
                && update_epic_status_transition(old(self)@, final(self)@, epic_id, status),
    {
        let epic_opt = self.state.epics.get_cloned(epic_id);
        match epic_opt {
            None => Err(JiraDatabaseError::NoEpicWithID),
            Some(mut new_epic) => {
                new_epic.status = status;
                self.state.epics.replace(epic_id, new_epic);
                proof {
                    let pre = old(self)@;
                    let post = self@;
                    let new_e = EpicView { status: status, ..pre.epics[epic_id] };
                    assert(new_epic@ == new_e);
                    assert(post.epics =~= pre.epics.insert(epic_id, new_e));
                    assert(update_epic_status_transition(pre, post, epic_id, status));
                    assert(view_wf(post)) by {
                        assert forall|k: u32| #[trigger] post.epics.dom().contains(k) implies
                            epic_list_wf(post, post.epics[k]) by {
                            assert(epic_list_wf(pre, pre.epics[k]));
                            assert(post.epics[k].stories == pre.epics[k].stories);
                        }
                        assert forall|k1: u32, k2: u32, sid: u32|
                            post.epics.dom().contains(k1) && post.epics.dom().contains(k2) && (
                            #[trigger] post.epics[k1].stories.contains(sid)) && (
                            #[trigger] post.epics[k2].stories.contains(sid)) implies k1 == k2 by {
                            assert(pre.epics[k1].stories.contains(sid));
                            assert(pre.epics[k2].stories.contains(sid));
                        }
                        assert forall|sid: u32| #[trigger] post.stories.dom().contains(sid) implies
                            exists|k: u32|
                                post.epics.dom().contains(k) && #[trigger] post.epics[k].stories.contains(
                                    sid,
                                ) by {
                            let k = choose|k: u32|
                                pre.epics.dom().contains(k) && #[trigger] pre.epics[k].stories.contains(
                                    sid,
                                );
                            assert(post.epics[k].stories.contains(sid));
                        }
                    }
                }
                Ok(())
            },
        }
    }

    /// Replace the status of the named story, leaving every other field as
    /// it was. A missing story id is reported with the same kind as a
    /// missing epic id.
    pub fn update_story_status(&mut self, story_id: u32, status: crate::models::Status) -> (r:
        Result<(), JiraDatabaseError>)
        requires
            old(self).wf(),
        ensures
            final(self).wf(),
            !old(self)@.stories.dom().contains(story_id) ==> r == Err::<(), JiraDatabaseError>(
                JiraDatabaseError::NoEpicWithID,
            ) && *final(self) == *old(self),
            old(self)@.stories.dom().contains(story_id) ==> r == Ok::<(), JiraDatabaseError>(())
                && update_story_status_transition(old(self)@, final(self)@, story_id, status),
    {
        let story_opt = self.state.stories.get_cloned(story_id);
        match story_opt {
            None => Err(JiraDatabaseError::NoEpicWithID),
            Some(mut new_story) => {
                new_story.status = status;
                self.state.stories.replace(story_id, new_story);
                proof {
                    let pre = old(self)@;
                    let post = self@;
                    let new_s = StoryView { status: status, ..pre.stories[story_id] };
                    assert(new_story@ == new_s);
                    assert(post.stories =~= pre.stories.insert(story_id, new_s));
                    assert(update_story_status_transition(pre, post, story_id, status));
                    assert(view_wf(post)) by {
                        assert forall|k: u32| #[trigger] post.epics.dom().contains(k) implies
                            epic_list_wf(post, post.epics[k]) by {
                            assert(epic_list_wf(pre, pre.epics[k]));
                        }
                        assert forall|sid: u32| #[trigger] post.stories.dom().contains(sid) implies
                            exists|k: u32|
                                post.epics.dom().contains(k) && #[trigger] post.epics[k].stories.contains(
                                    sid,
                                ) by {
                            assert(pre.stories.dom().contains(sid));
                            let k = choose|k: u32|
                                pre.epics.dom().contains(k) && #[trigger] pre.epics[k].stories.contains(
                                    sid,
                                );
                            assert(post.epics[k].stories.contains(sid));
                        }
                    }
                }
                Ok(())
            },
        }
    }
}

/// Ids returned by successive epic creations increase by exactly one, and
/// the counter always equals the id handed out most recently.
pub proof fn lemma_create_epic_ids_consecutive(
    s0: DBStateView,
    s1: DBStateView,
    s2: DBStateView,
    e1: EpicView,
    e2: EpicView,
    id1: u32,
    id2: u32,
)
    requires
        create_epic_transition(s0, s1, e1, id1),
        create_epic_transition(s1, s2, e2, id2),
    ensures
        s1.last_item_id == id1,
        s2.last_item_id == id2,
        id2 == id1 + 1,
{
}

/// Deleting an epic removes exactly the stories its list names: every story
/// it listed is gone, every other story and every other epic keeps its
/// value, and the epic itself is gone.
pub proof fn lemma_delete_epic_effect(
    pre: DBStateView,
    post: DBStateView,
    epic_id: u32,
    sid: u32,
    k: u32,
)
    requires
        delete_epic_transition(pre, post, epic_id),
    ensures
        pre.epics[epic_id].stories.contains(sid) ==> !post.stories.dom().contains(sid),
        pre.stories.dom().contains(sid) && !pre.epics[epic_id].stories.contains(sid)
            ==> post.stories.dom().contains(sid) && post.stories[sid] == pre.stories[sid],
        k != epic_id && pre.epics.dom().contains(k) ==> post.epics.dom().contains(k)
            && post.epics[k] == pre.epics[k],
        !post.epics.dom().contains(epic_id),
{
}

/// A status update leaves the named epic's name, description and story list
/// as they were, and every other item untouched.
pub proof fn lemma_update_epic_status_fields(
    pre: DBStateView,
    post: DBStateView,
    epic_id: u32,
    status: crate::models::Status,
    k: u32,
)
    requires
        update_epic_status_transition(pre, post, epic_id, status),
    ensures
        post.epics[epic_id].name == pre.epics[epic_id].name,
        post.epics[epic_id].description == pre.epics[epic_id].description,
        post.epics[epic_id].stories == pre.epics[epic_id].stories,
        post.epics[epic_id].status == status,
        k != epic_id && pre.epics.dom().contains(k) ==> post.epics[k] == pre.epics[k],
        post.stories == pre.stories,
{
}

/// A status update leaves the named story's name and description as they
/// were, and every other item untouched.
pub proof fn lemma_update_story_status_fields(
    pre: DBStateView,
    post: DBStateView,
    story_id: u32,
    status: crate::models::Status,
    k: u32,
)
    requires
        update_story_status_transition(pre, post, story_id, status),
    ensures
        post.stories[story_id].name == pre.stories[story_id].name,
        post.stories[story_id].description == pre.stories[story_id].description,
        post.stories[story_id].status == status,
        k != story_id && pre.stories.dom().contains(k) ==> post.stories[k] == pre.stories[k],
        post.epics == pre.epics,
{
}

/// A story id found in some list after one list lost an element was already
/// in the corresponding list before.
proof fn lemma_member_of_shrunk_list(
    pre: DBStateView,
    epic_id: u32,
    idx: int,
    e: EpicView,
    k: u32,
    sid: u32,
)
    requires
        pre.epics.dom().contains(epic_id),
        pre.epics.dom().contains(k),
        0 <= idx < pre.epics[epic_id].stories.len(),
        e == (if k == epic_id {
            EpicView { stories: pre.epics[epic_id].stories.remove(idx), ..pre.epics[epic_id] }
        } else {
            pre.epics[k]
        }),
        e.stories.contains(sid),
    ensures
        pre.epics[k].stories.contains(sid),
{
    let i = choose|i: int| 0 <= i < e.stories.len() && e.stories[i] == sid;
    if k == epic_id {
        let oi = if i < idx {
            i
        } else {
            i + 1
        };
        assert(pre.epics[epic_id].stories[oi] == sid);
    }
}

/// A story id found in some list of the widened snapshot either is the newly
/// appended id on the extended epic, or was already in that epic's list.
proof fn lemma_member_of_extended_list(
    pre: DBStateView,
    epic_id: u32,
    id: u32,
    e: EpicView,
    k: u32,
    sid: u32,
)
    requires
        view_wf(pre),
        pre.epics.dom().contains(epic_id),
        pre.epics.dom().contains(k),
        id > pre.last_item_id,
        e == (if k == epic_id {
            EpicView { stories: pre.epics[epic_id].stories.push(id), ..pre.epics[epic_id] }
        } else {
            pre.epics[k]
        }),
        e.stories.contains(sid),
    ensures
        sid == id ==> k == epic_id,
        sid != id ==> pre.epics[k].stories.contains(sid),
{
    let i = choose|i: int| 0 <= i < e.stories.len() && e.stories[i] == sid;
    if k == epic_id {
        let old_list = pre.epics[epic_id].stories;
        if i < old_list.len() {
            assert(old_list[i] == sid);
            assert(old_list.contains(sid));
            assert(pre.stories.dom().contains(sid));
            assert(sid <= pre.last_item_id);
        } else {
            assert(sid == id);
        }
    } else {
        assert(pre.epics[k].stories[i] == sid);
        assert(pre.epics[k].stories.contains(sid));
        assert(pre.stories.dom().contains(sid));
        assert(sid <= pre.last_item_id);
    }
}

} // verus!
