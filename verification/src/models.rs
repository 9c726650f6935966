use vstd::prelude::*;

verus! {

/// A user intent produced by a page and consumed by the navigator.
#[derive(Debug, Clone, Copy, PartialEq, Eq, Structural)]
pub enum Action {
    CreateEpic,
    NavigateToEpicDetail { epic_id: u32 },
    UpdateEpicStatus { epic_id: u32 },
    DeleteEpic { epic_id: u32 },
    CreateStory { epic_id: u32 },
    NavigateToStoryDetail { epic_id: u32, story_id: u32 },
    UpdateStoryStatus { story_id: u32 },
    DeleteStory { epic_id: u32, story_id: u32 },
    NavigateToPreviousPage,
    Exit,
}

/// The state of a work item.
#[derive(Debug, Clone, Copy, PartialEq, Eq, Structural)]
pub enum Status {
    Open,
    InProgress,
    Resolved,
    Closed,
}

impl Status {
    /// The canonical display label of each status.
    pub open spec fn spec_label(self) -> Seq<char> {
        match self {
            Status::Open => "OPEN"@,
            Status::InProgress => "IN PROGRESS"@,
            Status::Resolved => "RESOLVED"@,
            Status::Closed => "CLOSED"@,
        }
    }

    pub fn label(&self) -> (r: &'static str)
        ensures
            r@ == self.spec_label(),
    {
        match self {
            Status::Open => "OPEN",
            Status::InProgress => "IN PROGRESS",
            Status::Resolved => "RESOLVED",
            Status::Closed => "CLOSED",
        }
    }
}

/// The mathematical value of an `Epic`.
pub ghost struct EpicView {
    pub name: Seq<char>,
    pub description: Seq<char>,
    pub status: Status,
    pub stories: Seq<u32>,
}

/// A top-level work item owning the ids of the stories created under it,
/// in creation order.
#[derive(Debug)]
pub struct Epic {
    pub name: String,
    pub description: String,
    pub status: Status,
    pub stories: Vec<u32>,
}

impl View for Epic {
    type V = EpicView;

    open spec fn view(&self) -> EpicView {
        EpicView {
            name: self.name@,
            description: self.description@,
            status: self.status,
            stories: self.stories@,
        }
    }
}

impl Epic {
    pub fn new(name: String, description: String) -> (r: Self)
        ensures
            r@ == (EpicView { name: name@, description: description@, status: Status::Open, stories: Seq::<u32>::empty() }),
    {
        let r = Self { name, description, status: Status::Open, stories: Vec::new() };
        proof {
            assert(r@.stories =~= Seq::<u32>::empty());
        }
        r
    }
}

impl Clone for Epic {
    fn clone(&self) -> (r: Self)
        ensures
            r@ == self@,
    {
        Self {
            name: self.name.clone(),
            description: self.description.clone(),
            status: self.status,
            stories: self.stories.clone(),
        }
    }
}

impl PartialEq for Epic {
    fn eq(&self, other: &Self) -> (r: bool) {
        self.name == other.name && self.description == other.description
            && self.status == other.status && vec_u32_eq(&self.stories, &other.stories)
    }
}

impl vstd::std_specs::cmp::PartialEqSpecImpl for Epic {
    open spec fn obeys_eq_spec() -> bool {
        true
    }

    open spec fn eq_spec(&self, other: &Self) -> bool {
        self@ == other@
    }
}

/// The mathematical value of a `Story`.
pub ghost struct StoryView {
    pub name: Seq<char>,
    pub description: Seq<char>,
    pub status: Status,
}

/// A leaf work item; its owning epic tracks the membership.
#[derive(Debug)]
pub struct Story {
    pub name: String,
    pub description: String,
    pub status: Status,
}

impl View for Story {
    type V = StoryView;

    open spec fn view(&self) -> StoryView {
        StoryView { name: self.name@, description: self.description@, status: self.status }
    }
}

impl Story {
    pub fn new(name: String, description: String) -> (r: Self)
        ensures
            r@ == (StoryView { name: name@, description: description@, status: Status::Open }),
    {
        Self { name, description, status: Status::Open }
    }
}

impl Clone for Story {
    fn clone(&self) -> (r: Self)
        ensures
            r@ == self@,
    {
        Self { name: self.name.clone(), description: self.description.clone(), status: self.status }
    }
}

impl PartialEq for Story {
    fn eq(&self, other: &Self) -> (r: bool) {
        self.name == other.name && self.description == other.description
            && self.status == other.status
    }
}

impl vstd::std_specs::cmp::PartialEqSpecImpl for Story {
    open spec fn obeys_eq_spec() -> bool {
        true
    }

    open spec fn eq_spec(&self, other: &Self) -> bool {
        self@ == other@
    }
}

/// Element-wise comparison of two id lists.
pub fn vec_u32_eq(a: &Vec<u32>, b: &Vec<u32>) -> (r: bool)
    ensures
        r == (a@ == b@),
{
    if a.len() != b.len() {
        proof {
            assert(a@ != b@);
        }
        return false;
    }
    let mut i: usize = 0;
    while i < a.len()
        invariant
            0 <= i <= a.len(),
            a@.len() == b@.len(),
            forall|j: int| 0 <= j < i ==> a@[j] == b@[j],
        decreases a.len() - i,
    {
        if a[i] != b[i] {
            proof {
                assert(a@ != b@);
            }
            return false;
        }
        i += 1;
    }
    proof {
        assert(a@ =~= b@);
    }
    true
}

} // verus!
